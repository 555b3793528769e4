use fpga_place::{BLIFInfo, Problem};

const SAMPLE: &str = ".model tiny
.inputs a b
.outputs y
.names a b n1
11 1
.names n1 c y
01 1
.names   a   y
1 1
.end
";

#[test]
fn from_string_numbers_pins_and_groups_nets() {
    let blif = BLIFInfo::from_string(String::from("tiny.blif"), SAMPLE);
    assert_eq!(blif.filename, "tiny.blif");
    assert_eq!(blif.n_pin, 3);
    let find = |name: &str| blif.net_list.iter().find(|(n, _)| n == name).map(|(_, p)| p.clone());
    assert_eq!(find("a"), Some(vec![0, 2]));
    assert_eq!(find("b"), Some(vec![0]));
    assert_eq!(find("n1"), Some(vec![0, 1]));
    assert_eq!(find("c"), Some(vec![1]));
    assert_eq!(find("y"), Some(vec![1, 2]));
    assert_eq!(blif.net_list.len(), 5);
}

#[test]
fn from_string_lists_a_repeated_net_once_per_pin() {
    let blif = BLIFInfo::from_string(String::from("rep"), ".names x x y\n.names y\n");
    assert_eq!(blif.n_pin, 2);
    let x = blif.net_list.iter().find(|(n, _)| n == "x").unwrap();
    assert_eq!(x.1, vec![0]);
    let y = blif.net_list.iter().find(|(n, _)| n == "y").unwrap();
    assert_eq!(y.1, vec![0, 1]);
}

#[test]
fn from_string_of_text_without_pins_is_empty() {
    let blif = BLIFInfo::from_string(String::from("none"), ".model m\n.end\n");
    assert_eq!(blif.n_pin, 0);
    assert!(blif.net_list.is_empty());
    let blif = BLIFInfo::from_string(String::from("empty"), "");
    assert_eq!(blif.n_pin, 0);
}

#[test]
fn parsed_netlist_builds_a_problem() {
    let blif = BLIFInfo::from_string(String::from("tiny.blif"), SAMPLE);
    let problem = Problem::new(&blif, 3, 3).unwrap();
    assert_eq!(problem.n_pin, 3);
    assert_eq!(problem.nets.len(), 5);
    let total: usize = problem.pins.iter().map(|p| p.net_ids.len()).sum();
    assert_eq!(total, 8);
}
