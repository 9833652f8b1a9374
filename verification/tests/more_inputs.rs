use rustvent::days::{day01, day02, day03, day04, day05, day06, day07, day08, day09, day10, day11, day12, day15, day16, day18, day19, day22, day25};
use rustvent::solution::{Solution, SolvedValue};

#[test]
fn more_location_lists() {
    let cases: Vec<(&str, Option<SolvedValue>, Option<SolvedValue>)> = vec![
        ("2   9\n2   5\n", Some(SolvedValue::Number(10)), Some(SolvedValue::Number(0))),
        ("4   7\n", Some(SolvedValue::Number(3)), Some(SolvedValue::Number(0))),
        ("8   4\n", Some(SolvedValue::Number(4)), Some(SolvedValue::Number(0))),
        ("8   8\n3   8\n9   7\n9   3\n7   8\n5   6\n5   3\n4   6\n", Some(SolvedValue::Number(5)), Some(SolvedValue::Number(37))),
        ("8   3\n6   3\n1   9\n7   8\n7   7\n9   4\n7   3\n", Some(SolvedValue::Number(12)), Some(SolvedValue::Number(38))),
    ];
    for (input, first, second) in cases {
        assert_eq!(day01::Day.part1(input), first, "part one of {input:?}");
        assert_eq!(day01::Day.part2(input), second, "part two of {input:?}");
    }
}

#[test]
fn more_reports() {
    let cases: Vec<(&str, Option<SolvedValue>, Option<SolvedValue>)> = vec![
        ("3 2 3\n20 24 25\n", Some(SolvedValue::Number(0)), Some(SolvedValue::Number(2))),
        ("3 2 2 2\n4 5 7 10 9 9\n9 11 12 14 14\n4 8 12 15\n2 1 -3 -4 -5 -6\n", Some(SolvedValue::Number(0)), Some(SolvedValue::Number(1))),
        ("7 6 5 1 -2 -6\n4 3 0 -2\n19 22 25 26 25 26 25\n", Some(SolvedValue::Number(1)), Some(SolvedValue::Number(1))),
        ("4 4 1 0 -2 -3 -6\n5 6 9 12 11\n1 -3 -4\n13 14 15 16 18 17 17\n7 10 13 15\n", Some(SolvedValue::Number(1)), Some(SolvedValue::Number(4))),
        ("13 12 14 16 16 18 17\n8 7 6 6 7 4\n6 9 10 11 14 15 17\n", Some(SolvedValue::Number(1)), Some(SolvedValue::Number(1))),
        ("2 2 0 0 -3 -6\n", Some(SolvedValue::Number(0)), Some(SolvedValue::Number(0))),
    ];
    for (input, first, second) in cases {
        assert_eq!(day02::Day.part1(input), first, "part one of {input:?}");
        assert_eq!(day02::Day.part2(input), second, "part two of {input:?}");
    }
}

#[test]
fn more_updates() {
    let cases: Vec<(&str, Option<SolvedValue>, Option<SolvedValue>)> = vec![
        ("60|90\n53|19\n60|29\n60|86\n19|59\n60|53\n86|29\n90|86\n53|90\n60|19\n90|19\n53|59\n53|86\n86|19\n86|59\n29|59\n19|29\n60|59\n90|59\n90|29\n53|29\n\n53,60,90,29,59\n59,60,90,19,86\n60,53,90,19,59\n59,60,86,19,53\n", Some(SolvedValue::Number(90)), Some(SolvedValue::Number(262))),
        ("15|54\n54|68\n81|36\n36|68\n81|15\n31|68\n81|31\n36|54\n45|36\n36|15\n45|81\n81|54\n31|54\n15|68\n45|31\n45|54\n81|68\n45|68\n15|31\n45|15\n36|31\n\n36,81,31\n81,36,68\n45,15,31,54,68\n81,15,68\n", Some(SolvedValue::Number(82)), Some(SolvedValue::Number(36))),
        ("80|91\n91|35\n22|91\n91|38\n22|35\n38|35\n72|38\n20|35\n80|38\n20|38\n72|91\n22|38\n22|20\n72|22\n22|80\n72|80\n20|80\n80|35\n20|91\n72|20\n72|35\n\n38,72,35,22,80\n35,38,22\n20,80,91\n20,35,91\n", Some(SolvedValue::Number(80)), Some(SolvedValue::Number(209))),
        ("82|94\n54|21\n73|94\n96|94\n54|82\n21|94\n96|24\n82|21\n96|82\n96|73\n82|24\n54|24\n73|82\n73|24\n73|54\n54|94\n96|54\n96|21\n94|24\n21|24\n73|21\n\n21,96,82,24,54\n73,82,24\n24,21,94,96,73\n96,73,82,21,94\n", Some(SolvedValue::Number(164)), Some(SolvedValue::Number(103))),
        ("59|88\n18|35\n76|88\n36|88\n18|36\n76|36\n35|76\n35|88\n18|92\n92|88\n18|88\n35|36\n92|36\n35|92\n92|76\n59|92\n59|36\n59|35\n18|59\n59|76\n18|76\n\n18,35,88\n35,18,76\n92,59,76,88,35\n88,76,36,59,18\n", Some(SolvedValue::Number(35)), Some(SolvedValue::Number(203))),
    ];
    for (input, first, second) in cases {
        assert_eq!(day05::Day.part1(input), first, "part one of {input:?}");
        assert_eq!(day05::Day.part2(input), second, "part two of {input:?}");
    }
}

#[test]
fn more_labs() {
    let cases: Vec<(&str, Option<SolvedValue>, Option<SolvedValue>)> = vec![
        ("#...\n##^#\n....\n.#..\n#...\n", Some(SolvedValue::Number(2)), Some(SolvedValue::Number(0))),
        ("...#\n...^\n....\n...#\n....\n..#.\n.#.#\n", Some(SolvedValue::Number(1)), Some(SolvedValue::Number(0))),
        ("...#...\n.......\n#..#^#.\n", Some(SolvedValue::Number(3)), Some(SolvedValue::Number(0))),
        ("^.#.\n....\n....\n", Some(SolvedValue::Number(1)), Some(SolvedValue::Number(0))),
        ("#...\n....\n....\n.#^.\n.#..\n..##\n", Some(SolvedValue::Number(4)), Some(SolvedValue::Number(0))),
        ("...#...\n.......\n.#.^...\n.......\n.......\n", Some(SolvedValue::Number(5)), Some(SolvedValue::Number(0))),
    ];
    for (input, first, second) in cases {
        assert_eq!(day06::Day.part1(input), first, "part one of {input:?}");
        assert_eq!(day06::Day.part2(input), second, "part two of {input:?}");
    }
}

#[test]
fn more_disk_maps() {
    let cases: Vec<(&str, Option<SolvedValue>, Option<SolvedValue>)> = vec![
        ("877", Some(SolvedValue::Number(77)), Some(SolvedValue::Number(77))),
        ("686", Some(SolvedValue::Number(51)), Some(SolvedValue::Number(51))),
        ("48855987", Some(SolvedValue::Number(524)), Some(SolvedValue::Number(524))),
        ("274", Some(SolvedValue::Number(14)), Some(SolvedValue::Number(14))),
        ("94689739227", Some(SolvedValue::Number(1566)), Some(SolvedValue::Number(1830))),
        ("959155", Some(SolvedValue::Number(272)), Some(SolvedValue::Number(272))),
        ("9684918", Some(SolvedValue::Number(1018)), Some(SolvedValue::Number(1678))),
        ("88373435621", Some(SolvedValue::Number(661)), Some(SolvedValue::Number(685))),
        ("734", Some(SolvedValue::Number(34)), Some(SolvedValue::Number(46))),
        ("93862947", Some(SolvedValue::Number(360)), Some(SolvedValue::Number(420))),
    ];
    for (input, first, second) in cases {
        assert_eq!(day09::Day.part1(input), first, "part one of {input:?}");
        assert_eq!(day09::Day.part2(input), second, "part two of {input:?}");
    }
}

#[test]
fn more_maps() {
    let cases: Vec<(&str, Option<SolvedValue>, Option<SolvedValue>)> = vec![
        ("01235\n32446\n", Some(SolvedValue::Number(0)), Some(SolvedValue::Number(0))),
        ("03\n24\n23\n34\n55\n58\n", Some(SolvedValue::Number(0)), Some(SolvedValue::Number(0))),
        ("01\n14\n23\n34\n46\n", Some(SolvedValue::Number(0)), Some(SolvedValue::Number(0))),
        ("02346\n34445\n24656\n34767\n56688\n76789\n", Some(SolvedValue::Number(0)), Some(SolvedValue::Number(0))),
    ];
    for (input, first, second) in cases {
        assert_eq!(day10::Day.part1(input), first, "part one of {input:?}");
        assert_eq!(day10::Day.part2(input), second, "part two of {input:?}");
    }
}

#[test]
fn more_gardens() {
    let cases: Vec<(&str, Option<SolvedValue>, Option<SolvedValue>)> = vec![
        ("A\nB\n", Some(SolvedValue::Number(8)), Some(SolvedValue::Number(8))),
        ("ABABAA\nABABAA\nBABBBA\nABAABA\nBBAAAA\nABAAAA\n", Some(SolvedValue::Number(560)), Some(SolvedValue::Number(292))),
        ("AAAA\nABAA\n", Some(SolvedValue::Number(102)), Some(SolvedValue::Number(60))),
        ("BB\nBA\n", Some(SolvedValue::Number(28)), Some(SolvedValue::Number(22))),
        ("AAB\nBAA\nAAA\nABA\nAAA\nABA\n", Some(SolvedValue::Number(380)), Some(SolvedValue::Number(268))),
        ("ABAAAA\nAAABBB\nABAAAB\nBAAAAB\n", Some(SolvedValue::Number(552)), Some(SolvedValue::Number(330))),
    ];
    for (input, first, second) in cases {
        assert_eq!(day12::Day.part1(input), first, "part one of {input:?}");
        assert_eq!(day12::Day.part2(input), second, "part two of {input:?}");
    }
}

#[test]
fn more_warehouses() {
    let cases: Vec<(&str, Option<SolvedValue>, Option<SolvedValue>)> = vec![
        ("######\n#.@O##\n#.O..#\n#..#.#\n#...O#\n######\n\n^<><<vv>^<v>><^", Some(SolvedValue::Number(609)), Some(SolvedValue::Number(718))),
        ("#####\n#.#.#\n#O@O#\n#O.O#\n#####\n\n>>v>><>^<>^<<", Some(SolvedValue::Number(1008)), Some(SolvedValue::Number(1016))),
        ("#####\n##.O#\n#.OO#\n#@.O#\n#...#\n#####\n\n>>v<^^<><>vv<><^^^^>", Some(SolvedValue::Number(811)), Some(SolvedValue::Number(822))),
        ("#######\n##O#O.#\n#O..OO#\n#O.O.@#\n#.O.#.#\n#######\n\n^v^v<v<>>>", Some(SolvedValue::Number(1721)), Some(SolvedValue::Number(1744))),
        ("#####\n#.O@#\n#...#\n#####\n\n<^<><v<v^<v>^vv>>^v<^^^", Some(SolvedValue::Number(101)), Some(SolvedValue::Number(102))),
        ("######\n#..O.#\n#.O@.#\n#....#\n######\n\nv<><^>>><<<^><v><^v>>>v^^v>>", Some(SolvedValue::Number(207)), Some(SolvedValue::Number(210))),
    ];
    for (input, first, second) in cases {
        assert_eq!(day15::Day.part1(input), first, "part one of {input:?}");
        assert_eq!(day15::Day.part2(input), second, "part two of {input:?}");
    }
}

#[test]
fn more_mazes() {
    let cases: Vec<(&str, Option<SolvedValue>, Option<SolvedValue>)> = vec![
        ("#####\n#..S#\n#E.##\n#####\n", None, None),
        ("####\n#.S#\n#E.#\n##.#\n#..#\n##.#\n#..#\n####\n", Some(SolvedValue::Number(2002)), Some(SolvedValue::Number(3))),
        ("######\n#..###\n#.ES##\n######\n", None, None),
        ("#######\n#...E.#\n##...S#\n#..#..#\n#.#.###\n#.#..##\n#######\n", Some(SolvedValue::Number(2002)), Some(SolvedValue::Number(3))),
        ("#####\n#...#\n#...#\n#.S##\n##.E#\n#...#\n#...#\n#####\n", Some(SolvedValue::Number(2002)), Some(SolvedValue::Number(3))),
        ("####\n#SE#\n#..#\n####\n", Some(SolvedValue::Number(1)), Some(SolvedValue::Number(2))),
    ];
    for (input, first, second) in cases {
        assert_eq!(day16::Day.part1(input), first, "part one of {input:?}");
        assert_eq!(day16::Day.part2(input), second, "part two of {input:?}");
    }
}

#[test]
fn more_falling_bytes() {
    let cases: Vec<(&str, Option<SolvedValue>, Option<SolvedValue>)> = vec![
        ("2,0\n1,0\n4,6\n2,4\n5,2\n5,6\n4,1\n1,5\n6,5\n5,5\n5,3\n3,2\n0,2\n1,3\n3,5\n5,0\n3,3\n1,2\n2,6\n", None, Some(SolvedValue::Text("6,5".to_string()))),
        ("5,1\n0,1\n5,0\n6,3\n3,1\n2,5\n4,4\n6,1\n6,2\n2,6\n6,5\n6,4\n4,5\n4,2\n4,0\n5,6\n", Some(SolvedValue::Number(12)), None),
        ("2,4\n0,3\n4,5\n5,0\n6,3\n6,2\n0,2\n3,2\n4,4\n6,6\n2,2\n5,2\n1,4\n5,5\n6,5\n1,2\n3,1\n4,3\n3,0\n6,4\n3,6\n3,5\n5,1\n1,1\n1,5\n2,0\n", None, Some(SolvedValue::Text("6,6".to_string()))),
        ("3,1\n4,5\n0,4\n2,5\n1,1\n1,2\n6,3\n", Some(SolvedValue::Number(12)), None),
        ("6,3\n4,2\n3,5\n2,6\n0,6\n5,1\n", Some(SolvedValue::Number(12)), None),
        ("6,1\n2,0\n5,1\n5,2\n2,5\n4,0\n0,6\n5,3\n3,6\n2,6\n5,0\n6,5\n5,5\n", Some(SolvedValue::Number(12)), None),
    ];
    for (input, first, second) in cases {
        assert_eq!(day18::Day.part1(input), first, "part one of {input:?}");
        assert_eq!(day18::Day.part2(input), second, "part two of {input:?}");
    }
}

#[test]
fn more_towels() {
    let cases: Vec<(&str, Option<SolvedValue>, Option<SolvedValue>)> = vec![
        ("aa\n\naaabbabb\na\naa\n", Some(SolvedValue::Number(1)), Some(SolvedValue::Number(1))),
        ("aba, b, ba\n\nbb\nbbaababba\nbbbaba\nbabbaaaab\nbaabbaab\n", Some(SolvedValue::Number(3)), Some(SolvedValue::Number(4))),
        ("a, bba\n\nabbbbbbbb\nbaa\n", Some(SolvedValue::Number(0)), Some(SolvedValue::Number(0))),
        ("bab, ab, b\n\nbabbb\nbbbba\n", Some(SolvedValue::Number(1)), Some(SolvedValue::Number(2))),
        ("bb, a, b, ba\n\naabbb\naababbaaa\n", Some(SolvedValue::Number(2)), Some(SolvedValue::Number(9))),
    ];
    for (input, first, second) in cases {
        assert_eq!(day19::Day.part1(input), first, "part one of {input:?}");
        assert_eq!(day19::Day.part2(input), second, "part two of {input:?}");
    }
}

#[test]
fn more_secrets() {
    let cases: Vec<(&str, Option<SolvedValue>, Option<SolvedValue>)> = vec![
        ("8731641\n2391744\n4741817\n550567\n", Some(SolvedValue::Number(25043847)), Some(SolvedValue::Number(29))),
        ("169881\n", Some(SolvedValue::Number(16093423)), Some(SolvedValue::Number(9))),
        ("14903142\n2463495\n1191559\n", Some(SolvedValue::Number(34369924)), Some(SolvedValue::Number(27))),
    ];
    for (input, first, second) in cases {
        assert_eq!(day22::Day.part1(input), first, "part one of {input:?}");
        assert_eq!(day22::Day.part2(input), second, "part two of {input:?}");
    }
}

#[test]
fn more_locks_and_keys() {
    let cases: Vec<(&str, Option<SolvedValue>, Option<SolvedValue>)> = vec![
        (".....\n.....\n##.#.\n##.#.\n#####\n#####\n#####\n\n.....\n...#.\n...##\n..###\n..###\n..###\n#####\n", Some(SolvedValue::Number(0)), Some(SolvedValue::Text("Day 25.2 was a gift!".to_string()))),
        ("#####\n#####\n#####\n##.##\n##..#\n.#...\n.....\n\n#####\n###..\n.##..\n.##..\n.....\n.....\n.....\n\n#####\n#####\n##.##\n#..##\n.....\n.....\n.....\n\n.....\n#....\n#....\n#....\n#.#..\n#.#.#\n#####\n", Some(SolvedValue::Number(0)), Some(SolvedValue::Text("Day 25.2 was a gift!".to_string()))),
        (".....\n.....\n#..#.\n#.###\n#.###\n#.###\n#####\n\n.....\n.#...\n.##..\n.##.#\n###.#\n#####\n#####\n\n.....\n....#\n.##.#\n#####\n#####\n#####\n#####\n", Some(SolvedValue::Number(0)), Some(SolvedValue::Text("Day 25.2 was a gift!".to_string()))),
        ("#####\n#####\n#####\n#####\n#...#\n.....\n.....\n\n#####\n.##.#\n.##.#\n..#.#\n....#\n.....\n.....\n\n#####\n####.\n####.\n#.##.\n#.##.\n#..#.\n.....\n", Some(SolvedValue::Number(0)), Some(SolvedValue::Text("Day 25.2 was a gift!".to_string()))),
    ];
    for (input, first, second) in cases {
        assert_eq!(day25::Day.part1(input), first, "part one of {input:?}");
        assert_eq!(day25::Day.part2(input), second, "part two of {input:?}");
    }
}

#[test]
fn more_equations() {
    let cases: Vec<(&str, Option<SolvedValue>, Option<SolvedValue>)> = vec![
        ("98: 6 14 14\n28782: 14 11 15 11 16\n", Some(SolvedValue::Number(98)), Some(SolvedValue::Number(98))),
        ("120: 8 15\n2315: 1 5 16 15\n28751: 2 17 16 15 10\n497: 6 9 17 7\n", Some(SolvedValue::Number(617)), Some(SolvedValue::Number(617))),
        ("259: 11 3 16 19\n8: 1 6\n101: 6 3 1\n", Some(SolvedValue::Number(0)), Some(SolvedValue::Number(0))),
        ("1752: 18 8 11 5 6\n261: 4 18 5 20 14\n16: 1 15\n", Some(SolvedValue::Number(16)), Some(SolvedValue::Number(16))),
    ];
    for (input, first, second) in cases {
        assert_eq!(day07::Day.part1(input), first, "part one of {input:?}");
        assert_eq!(day07::Day.part2(input), second, "part two of {input:?}");
    }
}

#[test]
fn more_stones() {
    let cases: Vec<(&str, Option<SolvedValue>, Option<SolvedValue>)> = vec![
        ("4922 91674", Some(SolvedValue::Number(60904)), Some(SolvedValue::Number(72735468312950))),
        ("11077 5907", Some(SolvedValue::Number(79889)), Some(SolvedValue::Number(93765210550909))),
        ("66259 168 1501", Some(SolvedValue::Number(81280)), Some(SolvedValue::Number(96645312164727))),
    ];
    for (input, first, second) in cases {
        assert_eq!(day11::Day.part1(input), first, "part one of {input:?}");
        assert_eq!(day11::Day.part2(input), second, "part two of {input:?}");
    }
}

#[test]
fn more_antennas() {
    let cases: Vec<(&str, Option<SolvedValue>, Option<SolvedValue>)> = vec![
        ("..b.b.\n......\n.....a\n..A...\nb.....\nA..b..\n.A.b..\n.a..A.\n", Some(SolvedValue::Number(6)), Some(SolvedValue::Number(20))),
        ("......\n.bb...\n..A..b\n", Some(SolvedValue::Number(2)), Some(SolvedValue::Number(7))),
        ("....\n.A.A\n.ab.\n..a.\n.aAb\n.a..\n", Some(SolvedValue::Number(7)), Some(SolvedValue::Number(14))),
        ("ab..\na.AA\n..a.\n", Some(SolvedValue::Number(2)), Some(SolvedValue::Number(7))),
        ("...\n..a\n.A.\n..b\nbb.\n", Some(SolvedValue::Number(1)), Some(SolvedValue::Number(4))),
    ];
    for (input, first, second) in cases {
        assert_eq!(day08::Day.part1(input), first, "part one of {input:?}");
        assert_eq!(day08::Day.part2(input), second, "part two of {input:?}");
    }
}

#[test]
fn more_word_searches() {
    let cases: Vec<(&str, Option<SolvedValue>, Option<SolvedValue>)> = vec![
        ("MMASM\nSMAMX\nASMAM\nSXASM\nSMMAS\n", Some(SolvedValue::Number(0)), Some(SolvedValue::Number(0))),
        ("SAAS\nMMSM\nMAMA\n", Some(SolvedValue::Number(0)), Some(SolvedValue::Number(0))),
        ("MSXMAM\nSSMXSA\nXMSAAA\nSSMSSX\n", Some(SolvedValue::Number(0)), Some(SolvedValue::Number(1))),
        ("AXASM\nMAMXS\nXSXAS\nXMSXM\nAMSAA\nMSASA\nXMXAS\n", Some(SolvedValue::Number(0)), Some(SolvedValue::Number(0))),
        ("MMMXASS\nMAXSMSX\nAASASMA\n", Some(SolvedValue::Number(0)), Some(SolvedValue::Number(0))),
    ];
    for (input, first, second) in cases {
        assert_eq!(day04::Day.part1(input), first, "part one of {input:?}");
        assert_eq!(day04::Day.part2(input), second, "part two of {input:?}");
    }
}

#[test]
fn more_memory() {
    let cases: Vec<(&str, Option<SolvedValue>, Option<SolvedValue>)> = vec![
        (",,()mul(domul(9,9)7don't()don'tmul(1,1]dodo", Some(SolvedValue::Number(81)), Some(SolvedValue::Number(81))),
        ("mul(9,9)don't()mul(1,1]xdo()7mul(7,8)mul(mul(1,1]", Some(SolvedValue::Number(137)), Some(SolvedValue::Number(137))),
        ("mul(3,4)mul(mul(mul(7,8)don't", Some(SolvedValue::Number(68)), Some(SolvedValue::Number(68))),
        ("mul(7,8)mul(7,8)don't()domul(3,4)xmul(3,4)7don'tdon't()7", Some(SolvedValue::Number(136)), Some(SolvedValue::Number(112))),
        ("7()x()mul(7,8)()mul(7,8),", Some(SolvedValue::Number(112)), Some(SolvedValue::Number(112))),
        (",mul(7,8)mul(1,1]mul(3,4)domul(,mul(7,8)don't()do()mul(9,9)", Some(SolvedValue::Number(205)), Some(SolvedValue::Number(205))),
    ];
    for (input, first, second) in cases {
        assert_eq!(day03::Day.part1(input), first, "part one of {input:?}");
        assert_eq!(day03::Day.part2(input), second, "part two of {input:?}");
    }
}
