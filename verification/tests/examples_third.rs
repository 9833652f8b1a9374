use rustvent::days::{day20, day21, day22, day23, day24, day25};
use rustvent::solution::Solution;

const DAY20: &str = "###############
#...#...#.....#
#.#.#.#.#.###.#
#S#...#.#.#...#
#######.#.#.###
#######.#.#...#
#######.#.###.#
###..E#...#...#
###.#######.###
#...###...#...#
#.#####.#.###.#
#.#...#.#.#...#
#.#.#.#.#.#.###
#...#...#...###
###############
";

const DAY21: &str = "029A
980A
179A
456A
379A
";

const DAY22_FIRST: &str = "1
10
100
2024
";

const DAY22_SECOND: &str = "1
2
3
2024
";

const DAY23: &str = "kh-tc
qp-kh
de-cg
ka-co
yn-aq
qp-ub
cg-tb
vc-aq
tb-ka
wh-tc
yn-cg
kh-ub
ta-co
de-co
tc-td
tb-wq
wh-td
ta-ka
td-qp
aq-cg
wq-ub
ub-vc
de-ta
wq-aq
wq-vc
wh-yn
ka-de
kh-ta
co-tc
wh-qp
tb-vc
td-yn
";

const DAY24: &str = "x00: 1
x01: 0
x02: 1
x03: 1
x04: 0
y00: 1
y01: 1
y02: 1
y03: 1
y04: 1

ntg XOR fgs -> mjb
y02 OR x01 -> tnw
kwq OR kpj -> z05
x00 OR x03 -> fst
tgd XOR rvg -> z01
vdt OR tnw -> bfw
bfw AND frj -> z10
ffh OR nrd -> bqk
y00 AND y03 -> djm
y03 OR y00 -> psh
bqk OR frj -> z08
tnw OR fst -> frj
gnj AND tgd -> z11
bfw XOR mjb -> z00
x03 OR x00 -> vdt
gnj AND wpb -> z02
x04 AND y00 -> kjc
djm OR pbm -> qhw
nrd AND vdt -> hwm
kjc AND fst -> rvg
y04 OR y02 -> fgs
y01 AND x02 -> pbm
ntg OR kjc -> kwq
psh XOR fgs -> tgd
qhw XOR tgd -> z09
pbm OR djm -> kpj
x03 XOR y03 -> ffh
x00 XOR y04 -> ntg
bfw OR bqk -> z06
nrd XOR fgs -> wpb
frj XOR qhw -> z04
bqk OR frj -> z07
y03 OR x01 -> nrd
hwm AND bqk -> z03
tgd XOR rvg -> z12
tnw OR bfw -> gnj
";

const DAY25: &str = "#####
.####
.####
.####
.#.#.
.#...
.....

#####
##.##
.#.##
...##
...#.
...#.
.....

.....
#....
#....
#...#
#.#.#
#.###
#####

.....
.....
#.#..
###..
###.#
###.#
#####

.....
.....
.....
#....
#.#..
#.#.#
#####
";

#[test]
fn day20_test_part1_example() {
    assert_eq!(day20::Day.part1(DAY20), Some(0.into()));
}

#[test]
fn day20_test_part2_example() {
    assert_eq!(day20::Day.part2(DAY20), Some(0.into()));
}

#[test]
fn day21_test_part1_example() {
    assert_eq!(day21::Day.part1(DAY21), Some(126_384.into()));
}

#[test]
fn day21_test_part2_example() {
    assert_eq!(day21::Day.part2(DAY21), Some(154_115_708_116_294.into()));
}

#[test]
fn day22_test_part1_example() {
    assert_eq!(day22::Day.part1(DAY22_FIRST), Some(37_327_623.into()));
}

#[test]
fn day22_test_part2_example() {
    assert_eq!(day22::Day.part2(DAY22_SECOND), Some(23.into()));
}

#[test]
fn day23_test_part1_example() {
    assert_eq!(day23::Day.part1(DAY23), Some(7.into()));
}

#[test]
fn day23_test_part2_example() {
    assert_eq!(day23::Day.part2(DAY23), Some("co,de,ka,ta".into()));
}

#[test]
fn day24_test_part1_example() {
    assert_eq!(day24::Day.part1(DAY24), Some(2024.into()));
}

#[test]
fn day25_test_part1_example() {
    assert_eq!(day25::Day.part1(DAY25), Some(3.into()));
}
