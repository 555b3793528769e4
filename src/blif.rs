//! The netlist read from a BLIF text.

use vstd::prelude::*;

use crate::typing::PinID;

verus! {

/// The lines of a text, split as `str::lines` splits them.
pub uninterp spec fn lines_of(s: Seq<char>) -> Seq<Seq<char>>;

/// The words of a line, split as `str::split_whitespace` splits them.
pub uninterp spec fn words_of(s: Seq<char>) -> Seq<Seq<char>>;

/// Relies on `str::lines`: the lines of `s`, each without its line ending.
#[verifier::external_body]
fn text_lines(s: &str) -> (r: Vec<String>)
    ensures
        r@.map_values(|l: String| l@) == lines_of(s@),
{
    s.lines().map(|l| l.to_string()).collect()
}

/// Relies on `str::split_whitespace`: the words of `s`.
#[verifier::external_body]
fn split_words(s: &str) -> (r: Vec<String>)
    ensures
        r@.map_values(|w: String| w@) == words_of(s@),
{
    s.split_whitespace().map(|w| w.to_string()).collect()
}

/// Relies on `str::starts_with`: whether `prefix` begins `s`.
#[verifier::external_body]
fn starts_with(s: &str, prefix: &str) -> (r: bool)
    ensures
        r == (prefix@.len() <= s@.len() && s@.subrange(0, prefix@.len() as int) == prefix@),
{
    s.starts_with(prefix)
}

pub open spec fn names_keyword() -> Seq<char> {
    seq!['.', 'n', 'a', 'm', 'e', 's']
}

/// A line that declares a pin: it begins with `.names`.
pub open spec fn is_names_line(l: Seq<char>) -> bool {
    names_keyword().len() <= l.len() && l.subrange(0, names_keyword().len() as int) == names_keyword()
}

/// The pin lines of a text, in order: pin `k` is the `k`-th of them.
pub open spec fn pin_lines(ls: Seq<Seq<char>>) -> Seq<Seq<char>>
    decreases ls.len(),
{
    if ls.len() == 0 {
        Seq::empty()
    } else {
        let r = pin_lines(ls.drop_last());
        if is_names_line(ls.last()) {
            r.push(ls.last())
        } else {
            r
        }
    }
}

/// The nets a pin line names: its words after the keyword.
pub open spec fn nets_named(l: Seq<char>) -> Seq<Seq<char>> {
    let w = words_of(l);
    if w.len() == 0 {
        w
    } else {
        w.subrange(1, w.len() as int)
    }
}

pub open spec fn increasing(s: Seq<usize>) -> bool {
    forall|a: int, b: int| 0 <= a < b < s.len() ==> s[a] < s[b]
}

/// `nl` lists each net named by the pins below `n` of `pl` once, with the
/// pins that name it in increasing order, and the nets named so far by pin
/// `n` itself in `cur`.
pub open spec fn describes_upto(
    nl: Seq<(String, Vec<PinID>)>,
    pl: Seq<Seq<char>>,
    n: int,
    cur: Seq<Seq<char>>,
) -> bool {
    &&& forall|i: int, j: int| 0 <= i < j < nl.len() ==> (#[trigger] nl[i]).0@ != (#[trigger] nl[j]).0@
    &&& forall|i: int| 0 <= i < nl.len() ==> (#[trigger] nl[i]).1.len() > 0 && increasing(nl[i].1@)
    &&& forall|i: int, k: int| 0 <= i < nl.len() && 0 <= k < nl[i].1.len() ==> #[trigger] nl[i].1@[k] <= n
    &&& forall|i: int, p: int|
        0 <= i < nl.len() && 0 <= p < n ==> ((#[trigger] nl[i]).1@.contains(p as usize) <==> nets_named(
            #[trigger] pl[p],
        ).contains(nl[i].0@))
    &&& forall|i: int| 0 <= i < nl.len() ==> ((#[trigger] nl[i]).1@.contains(n as usize) <==> cur.contains(nl[i].0@))
    &&& forall|p: int, w: Seq<char>|
        0 <= p < n && #[trigger] nets_named(pl[p]).contains(w) ==> exists|i: int| 0 <= i < nl.len() && (#[trigger] nl[i]).0@ == w
    &&& forall|w: Seq<char>| #[trigger] cur.contains(w) ==> exists|i: int| 0 <= i < nl.len() && (#[trigger] nl[i]).0@ == w
}

/// Position of the net named `word` in `net_list`, or the list's length
/// when there is none.
fn find_net(net_list: &Vec<(String, Vec<PinID>)>, word: &String) -> (r: usize)
    ensures
        r <= net_list.len(),
        r < net_list.len() ==> net_list@[r as int].0@ == word@,
        r == net_list.len() ==> forall|m: int| 0 <= m < net_list.len() ==> (#[trigger] net_list@[m]).0@ != word@,
{
    let mut k: usize = 0;
    while k < net_list.len()
        invariant
            k <= net_list.len(),
            forall|m: int| 0 <= m < k ==> (#[trigger] net_list@[m]).0@ != word@,
        decreases net_list.len() - k,
    {
        if net_list[k].0 == *word {
            return k;
        }
        k += 1;
    }
    k
}

/// A netlist as read from a BLIF description: the pins are the `.names`
/// lines, numbered in order, and each net lists the pins that name it.
pub struct BLIFInfo {
    pub filename: String,
    pub net_list: Vec<(String, Vec<PinID>)>,
    pub n_pin: usize,
}

impl BLIFInfo {
    /// The pin lists of the nets, in order.
    pub open spec fn netlist(&self) -> Seq<Seq<usize>> {
        self.net_list@.map_values(|e: (String, Vec<PinID>)| e.1@)
    }

    /// Reads the netlist of a BLIF text: each line that begins with `.names`
    /// is a pin, numbered from zero, and each word after the keyword names a
    /// net that holds the pin. The net list holds each net named once, with
    /// its pins in increasing order, each pin once.
    pub fn from_string(filename: String, content: &str) -> (r: Self)
        ensures
            r.filename == filename,
            r.n_pin == pin_lines(lines_of(content@)).len(),
            describes_upto(r.net_list@, pin_lines(lines_of(content@)), r.n_pin as int, Seq::empty()),
            forall|i: int| 0 <= i < r.net_list.len() ==> (#[trigger] r.netlist()[i]).len() > 0,
            forall|i: int| 0 <= i < r.net_list.len() ==> (#[trigger] r.netlist()[i]).no_duplicates(),
            crate::cost::pins_below(r.netlist(), r.n_pin as int),
    {
        let lines = text_lines(content);
        let ghost ls = lines_of(content@);
        proof {
            reveal_strlit(".names");
            assert(".names"@ =~= names_keyword());
        }
        let mut net_list: Vec<(String, Vec<PinID>)> = Vec::new();
        let mut n_pin: usize = 0;
        for i in 0..lines.len()
            invariant
                lines@.map_values(|l: String| l@) == ls,
                ".names"@ == names_keyword(),
                n_pin == pin_lines(ls.subrange(0, i as int)).len(),
                n_pin <= i,
                describes_upto(net_list@, pin_lines(ls.subrange(0, i as int)), n_pin as int, Seq::empty()),
        {
            let ghost pl = pin_lines(ls.subrange(0, i as int));
            let ghost sub = ls.subrange(0, i as int + 1);
            assert(sub.drop_last() =~= ls.subrange(0, i as int));
            assert(sub.last() == lines@[i as int]@);
            let line = lines[i].as_str();
            if starts_with(line, ".names") {
                let words = split_words(line);
                proof {
                    assert(is_names_line(line@));
                    assert(pin_lines(sub) == pl.push(line@));
                }
                if words.len() > 0 {
                    let mut j: usize = 1;
                    while j < words.len()
                        invariant
                            1 <= j <= words.len(),
                            words@.map_values(|w: String| w@) == words_of(line@),
                            describes_upto(net_list@, pl, n_pin as int, words_of(line@).subrange(1, j as int)),
                            n_pin <= i,
                        decreases words.len() - j,
                    {
                        let ghost cur = words_of(line@).subrange(1, j as int);
                        let ghost cur2 = words_of(line@).subrange(1, j as int + 1);
                        let ghost old_nl = net_list@;
                        let word = &words[j];
                        assert(word@ == words_of(line@)[j as int]);
                        assert(cur2 =~= cur.push(word@));
                        assert forall|w: Seq<char>| #[trigger] cur2.contains(w) <==> cur.contains(w) || w == word@ by {
                            assert(cur2[cur.len() as int] == word@);
                            if cur2.contains(w) && w != word@ {
                                let m = choose|m: int| 0 <= m < cur2.len() && cur2[m] == w;
                                assert(cur[m] == w);
                            }
                            if cur.contains(w) {
                                let m = choose|m: int| 0 <= m < cur.len() && cur[m] == w;
                                assert(cur2[m] == w);
                            }
                        }
                        let k = find_net(&net_list, word);
                        if k < net_list.len() {
                            let last = net_list[k].1[net_list[k].1.len() - 1];
                            if last != n_pin {
                                net_list[k].1.push(n_pin);
                                proof {
                                    let nl = net_list@;
                                    let ps = old_nl[k as int].1@;
                                    assert(nl[k as int].1@ == ps.push(n_pin));
                                    assert(!ps.contains(n_pin)) by {
                                        if ps.contains(n_pin) {
                                            let m = choose|m: int| 0 <= m < ps.len() && ps[m] == n_pin;
                                            assert(ps[m] <= ps[ps.len() - 1]);
                                        }
                                    }
                                    assert forall|i: int| 0 <= i < nl.len() && i != k implies #[trigger] nl[i] == old_nl[i] by {}
                                    assert forall|p: int| 0 <= p < n_pin implies (#[trigger] nl[k as int].1@.contains(p as usize) <==> ps.contains(p as usize)) by {
                                        if nl[k as int].1@.contains(p as usize) {
                                            let m = choose|m: int| 0 <= m < nl[k as int].1@.len() && nl[k as int].1@[m] == p as usize;
                                            if m < ps.len() {
                                                assert(ps[m] == p as usize);
                                            }
                                        }
                                        if ps.contains(p as usize) {
                                            let m = choose|m: int| 0 <= m < ps.len() && ps[m] == p as usize;
                                            assert(nl[k as int].1@[m] == p as usize);
                                        }
                                    }
                                    assert(nl[k as int].1@.contains(n_pin)) by {
                                        assert(nl[k as int].1@[ps.len() as int] == n_pin);
                                    }
                                    assert forall|w: Seq<char>| #[trigger] cur2.contains(w) implies exists|i: int| 0 <= i < nl.len() && (#[trigger] nl[i]).0@ == w by {
                                        if w == word@ {
                                            assert(nl[k as int].0@ == w);
                                        } else {
                                            let i = choose|i: int| 0 <= i < old_nl.len() && (#[trigger] old_nl[i]).0@ == w;
                                            assert(nl[i].0@ == w);
                                        }
                                    }
                                    assert forall|p: int, w: Seq<char>|
                                        0 <= p < n_pin && #[trigger] nets_named(pl[p]).contains(w) implies exists|i: int| 0 <= i < nl.len() && (#[trigger] nl[i]).0@ == w by {
                                        let i = choose|i: int| 0 <= i < old_nl.len() && (#[trigger] old_nl[i]).0@ == w;
                                        assert(nl[i].0@ == w);
                                    }
                                    assert(describes_upto(nl, pl, n_pin as int, cur2));
                                }
                            } else {
                                proof {
                                    let ps = old_nl[k as int].1@;
                                    assert(ps.contains(n_pin)) by {
                                        assert(ps[ps.len() - 1] == n_pin);
                                    }
                                    assert(cur.contains(word@));
                                    assert forall|w: Seq<char>| #[trigger] cur2.contains(w) implies exists|i: int| 0 <= i < old_nl.len() && (#[trigger] old_nl[i]).0@ == w by {
                                        assert(cur.contains(w));
                                    }
                                }
                            }
                        } else {
                            let mut pins: Vec<PinID> = Vec::new();
                            pins.push(n_pin);
                            net_list.push((word.clone(), pins));
                            proof {
                                let nl = net_list@;
                                let e = nl[old_nl.len() as int];
                                assert(e.1@ =~= seq![n_pin]);
                                assert(e.1@[0] == n_pin);
                                assert forall|i: int| 0 <= i < old_nl.len() implies #[trigger] nl[i] == old_nl[i] by {}
                                assert forall|p: int| 0 <= p < n_pin implies !nets_named(pl[p]).contains(word@) by {
                                    if nets_named(pl[p]).contains(word@) {
                                        let i = choose|i: int| 0 <= i < old_nl.len() && (#[trigger] old_nl[i]).0@ == word@;
                                    }
                                }
                                assert forall|w: Seq<char>| #[trigger] cur2.contains(w) implies exists|i: int| 0 <= i < nl.len() && (#[trigger] nl[i]).0@ == w by {
                                    if w == word@ {
                                        assert(nl[old_nl.len() as int].0@ == w);
                                    } else {
                                        let i = choose|i: int| 0 <= i < old_nl.len() && (#[trigger] old_nl[i]).0@ == w;
                                        assert(nl[i].0@ == w);
                                    }
                                }
                                assert forall|p: int, w: Seq<char>|
                                    0 <= p < n_pin && #[trigger] nets_named(pl[p]).contains(w) implies exists|i: int| 0 <= i < nl.len() && (#[trigger] nl[i]).0@ == w by {
                                    let i = choose|i: int| 0 <= i < old_nl.len() && (#[trigger] old_nl[i]).0@ == w;
                                    assert(nl[i].0@ == w);
                                }
                                assert forall|i: int, p: int|
                                    0 <= i < nl.len() && 0 <= p < n_pin implies ((#[trigger] nl[i]).1@.contains(p as usize) <==> nets_named(
                                        #[trigger] pl[p],
                                    ).contains(nl[i].0@)) by {
                                    if i == old_nl.len() {
                                        if e.1@.contains(p as usize) {
                                            let m = choose|m: int| 0 <= m < e.1@.len() && e.1@[m] == p as usize;
                                        }
                                    }
                                }
                                assert(describes_upto(nl, pl, n_pin as int, cur2));
                            }
                        }
                        j += 1;
                    }
                }
                proof {
                    let nl = net_list@;
                    let pl2 = pl.push(line@);
                    let w = words_of(line@);
                    if w.len() > 0 {
                        assert(w.subrange(1, w.len() as int) == nets_named(line@));
                    } else {
                        assert(nets_named(line@) == w);
                        assert(w =~= Seq::<Seq<char>>::empty());
                    }
                    assert(pl2[n_pin as int] == line@);
                    assert forall|p: int| 0 <= p < n_pin implies #[trigger] pl2[p] == pl[p] by {}
                    assert forall|i: int, p: int|
                        0 <= i < nl.len() && 0 <= p < n_pin + 1 implies ((#[trigger] nl[i]).1@.contains(p as usize) <==> nets_named(
                            #[trigger] pl2[p],
                        ).contains(nl[i].0@)) by {
                        if p < n_pin {
                            assert(pl2[p] == pl[p]);
                        }
                    }
                    assert forall|i: int| 0 <= i < nl.len() implies !(#[trigger] nl[i]).1@.contains((n_pin + 1) as usize) by {
                        if nl[i].1@.contains((n_pin + 1) as usize) {
                            let m = choose|m: int| 0 <= m < nl[i].1@.len() && nl[i].1@[m] == (n_pin + 1) as usize;
                            assert(nl[i].1@[m] <= n_pin);
                        }
                    }
                    assert forall|p: int, w2: Seq<char>|
                        0 <= p < n_pin + 1 && #[trigger] nets_named(pl2[p]).contains(w2) implies exists|i: int| 0 <= i < nl.len() && (#[trigger] nl[i]).0@ == w2 by {
                        if p < n_pin {
                            assert(pl2[p] == pl[p]);
                        }
                    }
                }
                n_pin += 1;
            } else {
                proof {
                    assert(!is_names_line(line@));
                    assert(pin_lines(sub) == pl);
                }
            }
        }
        assert(ls.subrange(0, lines.len() as int) =~= ls);
        proof {
            let nl = net_list@;
            let model = nl.map_values(|e: (String, Vec<PinID>)| e.1@);
            assert forall|i: int| 0 <= i < nl.len() implies (#[trigger] model[i]).len() > 0 && model[i].no_duplicates() by {
                assert(model[i] == nl[i].1@);
                assert(increasing(nl[i].1@));
            }
            assert forall|i: int, j: int| 0 <= i < model.len() && 0 <= j < model[i].len() implies #[trigger] model[i][j] < n_pin by {
                assert(model[i] == nl[i].1@);
                assert(nl[i].1@[j] <= n_pin);
                if nl[i].1@[j] == n_pin {
                    assert(nl[i].1@.contains(n_pin));
                }
            }
        }
        BLIFInfo { filename, net_list, n_pin }
    }
}

} // verus!
