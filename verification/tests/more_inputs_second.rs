use rustvent::days::{day14, day21, day23, day24};
use rustvent::solution::{Solution, SolvedValue};

#[test]
fn more_robots() {
    let cases: Vec<(&str, Option<SolvedValue>, Option<SolvedValue>)> = vec![
        ("p=3,2 v=5,2\np=4,0 v=-1,-3\np=2,4 v=5,0\np=5,3 v=2,1\np=3,1 v=1,5\np=10,2 v=0,-6\np=2,1 v=3,4\np=0,3 v=2,2\np=6,0 v=4,0\np=9,1 v=6,0\np=2,4 v=1,1\np=3,3 v=4,5\np=0,4 v=5,-3\np=10,5 v=-4,3\np=9,1 v=1,-1\np=1,0 v=-1,2\n", Some(SolvedValue::Number(63)), None),
        ("p=10,6 v=-2,6\np=5,0 v=0,-3\np=8,6 v=6,1\np=1,1 v=-6,-1\np=0,3 v=4,-2\np=3,0 v=-6,5\np=1,2 v=6,3\np=2,1 v=5,-2\np=5,1 v=6,5\n", Some(SolvedValue::Number(6)), None),
        ("p=54,20 v=-6,-3\np=15,15 v=-1,5\np=36,5 v=2,1\np=45,2 v=1,-2\np=45,45 v=-4,-3\np=8,63 v=-6,-2\np=86,85 v=0,0\np=1,67 v=3,2\np=78,86 v=-1,-3\np=64,65 v=2,1\np=79,63 v=3,-4\np=38,72 v=2,-3\np=81,29 v=-5,3\np=7,9 v=4,-1\np=85,54 v=-4,-4\np=90,101 v=-6,1\np=1,94 v=-4,-6\np=42,5 v=5,3\np=10,70 v=-2,2\np=61,46 v=-6,1\n", Some(SolvedValue::Number(525)), None),
        ("p=54,20 v=-2,5\np=41,4 v=-3,1\np=55,63 v=5,0\np=43,41 v=-1,6\np=30,4 v=-1,-1\np=85,87 v=-4,-4\np=49,17 v=6,4\np=98,75 v=-6,0\np=91,26 v=-2,-2\np=86,82 v=5,-2\np=56,90 v=-2,6\np=94,11 v=-2,6\np=59,79 v=0,6\np=76,88 v=-1,-1\np=40,7 v=-3,6\np=83,86 v=1,2\n", Some(SolvedValue::Number(112)), None),
    ];
    for (input, first, second) in cases {
        assert_eq!(day14::Day.part1(input), first, "part one of {input:?}");
        assert!(second.is_none());
    }
}

#[test]
fn more_networks() {
    let cases: Vec<(&str, Option<SolvedValue>, Option<SolvedValue>)> = vec![
        ("tb-kb\ntc-tq\nkb-ka\nka-ta\ntc-ka\ntq-tb\nkb-zb\nkb-kc\ntc-kc\ntq-ta\nzb-qa\ntq-zb\nqa-tb\nta-kb\n", Some(SolvedValue::Number(1)), None),
        ("kb-ka\ntb-kb\nkc-zb\nkb-zb\nzb-ka\n", Some(SolvedValue::Number(0)), None),
        ("tq-kb\nta-kb\ntq-ta\n", Some(SolvedValue::Number(1)), None),
        ("ta-zb\ntc-kb\nta-kc\nzb-qa\ntq-zb\nza-zb\nqa-tc\ntc-tq\ntq-za\nka-qa\ntq-kb\ntq-kc\nzb-kc\ntq-qa\nka-kb\nzb-tc\n", Some(SolvedValue::Number(8)), None),
        ("tb-kc\nkc-ta\nza-ta\nta-tb\nkc-ka\n", Some(SolvedValue::Number(1)), None),
        ("kb-kc\n", Some(SolvedValue::Number(0)), None),
    ];
    for (input, first, second) in cases {
        assert_eq!(day23::Day.part1(input), first, "part one of {input:?}");
        assert!(second.is_none());
    }
}

#[test]
fn more_circuits() {
    let cases: Vec<(&str, Option<SolvedValue>, Option<SolvedValue>)> = vec![
        ("x01: 0\ny02: 0\n\nx01 XOR y02 -> z00\n", Some(SolvedValue::Number(0)), None),
        ("x02: 1\nx04: 1\ny05: 1\nx08: 1\ny09: 1\nx11: 1\ny12: 0\n\nm01 XOR n06 -> z00\nx08 OR y09 -> m07\nx11 XOR y12 -> n10\nx02 AND n03 -> m01\nx04 AND y05 -> n03\nm07 XOR n10 -> n06\n", Some(SolvedValue::Number(1)), None),
        ("x01: 1\ny02: 1\nx03: 1\nx06: 1\ny07: 1\ny08: 1\nx09: 0\ny10: 1\nx13: 0\ny14: 1\ny15: 1\nx17: 0\nx19: 0\ny20: 1\n\nm05 AND y08 -> n04\nx01 AND y02 -> z00\nx09 XOR y10 -> z02\nx13 XOR y14 -> m12\nx03 OR n04 -> z01\nx19 OR y20 -> n18\nm11 AND n16 -> z03\nx06 AND y07 -> m05\nx17 OR n18 -> n16\nm12 AND y15 -> m11\n", Some(SolvedValue::Number(15)), None),
        ("x01: 1\ny02: 1\nx06: 0\ny07: 1\nx09: 1\ny10: 1\nx13: 1\ny14: 1\nx16: 0\ny17: 0\nx21: 1\ny22: 0\nx24: 0\ny25: 1\nx28: 0\ny29: 1\ny30: 1\nx32: 1\nx34: 1\ny35: 1\ny36: 0\nx38: 1\ny39: 1\nx41: 1\ny42: 0\n\nm12 XOR n15 -> n11\nm04 AND n11 -> m03\nx34 OR y35 -> n33\nx28 AND y29 -> m27\nm37 OR n40 -> z03\nm20 OR n23 -> m19\nm31 OR y36 -> z02\nm05 OR n08 -> m04\nx16 OR y17 -> n15\nx32 OR n33 -> m31\nx09 OR y10 -> n08\nx13 OR y14 -> m12\nm03 AND n18 -> z01\nx24 OR y25 -> n23\nx21 XOR y22 -> m20\nx41 OR y42 -> n40\nx01 AND y02 -> z00\nm27 XOR y30 -> n26\nx38 OR y39 -> m37\nx06 AND y07 -> m05\nm19 XOR n26 -> n18\n", Some(SolvedValue::Number(13)), None),
        ("x04: 0\ny05: 0\nx07: 1\ny08: 1\ny09: 0\nx13: 0\ny14: 0\ny15: 1\ny16: 0\n\nm11 AND y16 -> n10\nm12 XOR y15 -> m11\nm01 XOR n10 -> z00\nm03 OR n06 -> m02\nx07 OR y08 -> n06\nm02 XOR y09 -> m01\nx04 OR y05 -> m03\nx13 AND y14 -> m12\n", Some(SolvedValue::Number(1)), None),
    ];
    for (input, first, second) in cases {
        assert_eq!(day24::Day.part1(input), first, "part one of {input:?}");
        assert!(second.is_none());
    }
}

#[test]
fn more_door_codes() {
    let cases: Vec<(&str, Option<SolvedValue>, Option<SolvedValue>)> = vec![
        ("508A\n555A\n222A\n", Some(SolvedValue::Number(68766)), Some(SolvedValue::Number(83504442399996))),
        ("804A\n339A\n901A\n996A\n", Some(SolvedValue::Number(210768)), Some(SolvedValue::Number(250386812534896))),
        ("521A\n", Some(SolvedValue::Number(40638)), Some(SolvedValue::Number(51271093859888))),
        ("527A\n057A\n881A\n915A\n", Some(SolvedValue::Number(176218)), Some(SolvedValue::Number(214790387203912))),
        ("505A\n990A\n842A\n", Some(SolvedValue::Number(148546)), Some(SolvedValue::Number(185089915806842))),
        ("372A\n996A\n866A\n170A\n", Some(SolvedValue::Number(136316)), Some(SolvedValue::Number(166006086186164))),
    ];
    for (input, first, second) in cases {
        assert_eq!(day21::Day.part1(input), first, "part one of {input:?}");
        assert_eq!(day21::Day.part2(input), second, "part two of {input:?}");
    }
}
