use rustvent::days::day24;
use rustvent::solution::{Solution, SolvedValue};

#[test]
fn swapped_wires_of_an_adder_are_flagged() {
    let cases: Vec<(&str, Option<SolvedValue>)> = vec![
        ("x00: 1\nx01: 1\nx02: 0\nx03: 0\nx04: 1\nx05: 1\nx06: 0\nx07: 0\nx08: 1\nx09: 1\ny00: 1\ny01: 1\ny02: 1\ny03: 0\ny04: 1\ny05: 1\ny06: 0\ny07: 0\ny08: 1\ny09: 0\n\nx07 XOR y07 -> t07\nc08 XOR t09 -> z09\nx00 AND y00 -> c00\ny08 AND x08 -> a08\ny09 AND x09 -> a09\nx04 XOR y04 -> t04\na02 OR b02 -> c02\nx00 XOR y00 -> z00\nt08 AND c07 -> b08\ny07 AND x07 -> z08\nx03 XOR y03 -> t03\ny06 AND x06 -> a06\na04 OR b04 -> c04\nt09 AND c08 -> b09\ny02 AND x02 -> a02\na08 OR b08 -> c08\na05 OR b05 -> c05\nx09 XOR y09 -> t09\nc02 XOR t03 -> z03\nt02 AND c01 -> b02\nt03 AND c02 -> b03\na03 OR b03 -> c03\nc01 XOR t02 -> z02\ny04 AND x04 -> a04\nx01 XOR y01 -> t01\nt06 AND c05 -> b06\nc04 XOR t05 -> z05\nx05 XOR y05 -> t05\nt01 AND c00 -> b01\nt05 AND c04 -> b05\nx02 XOR y02 -> t02\nc03 XOR t04 -> z04\na09 OR b09 -> z10\nx08 XOR y08 -> t08\nc05 XOR t06 -> z06\nt04 AND c03 -> b04\nx06 XOR y06 -> t06\nc06 XOR t07 -> z07\na06 OR b06 -> c06\ny03 AND x03 -> a03\nc07 XOR t08 -> a07\ny01 AND x01 -> a01\na07 OR b07 -> c07\nc00 XOR t01 -> z01\nt07 AND c06 -> b07\na01 OR b01 -> c01\ny05 AND x05 -> a05\n", Some(SolvedValue::Text("a07,z08".to_string()))),
        ("x00: 1\nx01: 1\nx02: 0\nx03: 0\nx04: 0\nx05: 1\nx06: 0\nx07: 0\nx08: 1\nx09: 0\ny00: 1\ny01: 1\ny02: 0\ny03: 1\ny04: 0\ny05: 1\ny06: 0\ny07: 0\ny08: 0\ny09: 1\n\na07 OR b07 -> c07\nt04 AND c03 -> a01\na05 OR b05 -> c05\nc06 XOR t07 -> z07\nx05 XOR y05 -> t05\nx07 XOR y07 -> t07\na08 OR b08 -> c08\na03 OR b03 -> c03\nc02 XOR t03 -> z03\nt07 AND c06 -> b07\nt03 AND c02 -> b03\nx00 AND y00 -> c00\ny07 AND x07 -> a07\nt01 AND c00 -> b01\nc01 XOR t02 -> z02\nc04 XOR t05 -> z05\ny02 AND x02 -> a02\nx06 XOR y06 -> t06\ny08 AND x08 -> a08\ny05 AND x05 -> a05\ny09 AND x09 -> a09\nx01 XOR y01 -> t01\nc05 XOR t06 -> z06\nc03 XOR t04 -> z04\na02 OR b02 -> c02\nx09 XOR y09 -> t09\nx04 XOR y04 -> t04\nx08 XOR y08 -> t08\ny04 AND x04 -> a04\nx00 XOR y00 -> z00\na06 OR b06 -> c06\nc07 XOR t08 -> z08\na04 OR b04 -> c04\nx02 XOR y02 -> t02\nt02 AND c01 -> b02\ny06 AND x06 -> a06\ny03 AND x03 -> a03\nc00 XOR t01 -> z01\nx03 XOR y03 -> t03\ny01 AND x01 -> b04\nc08 XOR t09 -> z09\nt08 AND c07 -> b08\nt06 AND c05 -> b06\na01 OR b01 -> c01\nt09 AND c08 -> b09\na09 OR b09 -> z10\nt05 AND c04 -> b05\n", Some(SolvedValue::Text("".to_string()))),
        ("x00: 1\nx01: 0\nx02: 0\nx03: 0\nx04: 0\nx05: 0\nx06: 1\nx07: 0\nx08: 0\nx09: 1\ny00: 1\ny01: 0\ny02: 0\ny03: 0\ny04: 0\ny05: 1\ny06: 0\ny07: 0\ny08: 1\ny09: 0\n\ny01 AND x01 -> a01\nx03 XOR y03 -> t03\nc02 XOR t03 -> z03\nx04 XOR y04 -> t04\ny07 AND x07 -> a07\ny06 AND x06 -> a06\na04 OR b04 -> c04\na07 OR b07 -> c07\nt04 AND c03 -> b04\nc03 XOR t04 -> z04\nt01 AND c00 -> b01\na02 OR b02 -> c02\nc04 XOR t05 -> z05\nx01 XOR y01 -> t01\nt03 AND c02 -> b03\nx06 XOR y06 -> t06\nc07 XOR t08 -> z08\nc08 XOR t09 -> z09\ny04 AND x04 -> a04\nx02 XOR y02 -> t02\nt08 AND c07 -> z01\nt07 AND c06 -> b07\nt05 AND c04 -> a03\nc06 XOR t07 -> z07\nx07 XOR y07 -> t07\na05 OR b05 -> c05\na06 OR b06 -> c06\ny03 AND x03 -> b05\nc00 XOR t01 -> b08\ny05 AND x05 -> a05\na03 OR b03 -> c03\na01 OR b01 -> c01\nx00 XOR y00 -> z00\nx09 XOR y09 -> t09\ny09 AND x09 -> a09\ny08 AND x08 -> a08\nx05 XOR y05 -> t05\nt06 AND c05 -> b06\na08 OR b08 -> c08\nc05 XOR t06 -> z06\nx08 XOR y08 -> t08\nc01 XOR t02 -> a02\nx00 AND y00 -> c00\ny02 AND x02 -> z02\nt09 AND c08 -> b09\nt02 AND c01 -> b02\na09 OR b09 -> z10\n", Some(SolvedValue::Text("a02,b08,z01,z02".to_string()))),
        ("x00: 0\nx01: 1\nx02: 0\nx03: 0\nx04: 1\nx05: 0\nx06: 1\nx07: 0\nx08: 0\nx09: 1\ny00: 0\ny01: 0\ny02: 0\ny03: 1\ny04: 0\ny05: 1\ny06: 0\ny07: 1\ny08: 1\ny09: 1\n\nt08 AND c07 -> b08\nc06 XOR t07 -> z07\na06 OR b06 -> c06\ny02 AND x02 -> a02\nt06 AND c05 -> b06\na08 OR b08 -> c08\nt07 AND c06 -> b07\nc04 XOR t05 -> z05\na01 OR b01 -> c01\na02 OR b02 -> c02\ny03 AND x03 -> a03\nt03 AND c02 -> b03\ny08 AND x08 -> a08\ny06 AND x06 -> a06\nc00 XOR t01 -> z01\nt09 AND c08 -> b09\ny04 AND x04 -> a04\nx02 XOR y02 -> t02\ny01 AND x01 -> a01\nx01 XOR y01 -> t01\ny07 AND x07 -> a07\nc01 XOR t02 -> z02\nc03 XOR t04 -> z04\na03 OR b03 -> c03\ny09 AND x09 -> a09\nx08 XOR y08 -> t08\nx00 XOR y00 -> z00\na07 OR b07 -> c07\nc05 XOR t06 -> z06\nc08 XOR t09 -> z09\nx04 XOR y04 -> t04\nc07 XOR t08 -> z08\nx00 AND y00 -> c00\ny05 AND x05 -> a05\nt01 AND c00 -> b01\nt04 AND c03 -> b04\nx05 XOR y05 -> t05\nx03 XOR y03 -> t03\na05 OR b05 -> c05\na04 OR b04 -> c04\nt05 AND c04 -> b05\nx07 XOR y07 -> t07\nx06 XOR y06 -> t06\na09 OR b09 -> z10\nc02 XOR t03 -> z03\nx09 XOR y09 -> t09\nt02 AND c01 -> b02\n", Some(SolvedValue::Text("".to_string()))),
        ("x00: 0\nx01: 1\nx02: 0\nx03: 0\nx04: 1\nx05: 0\nx06: 1\nx07: 0\nx08: 1\nx09: 1\ny00: 0\ny01: 0\ny02: 0\ny03: 1\ny04: 1\ny05: 1\ny06: 0\ny07: 1\ny08: 0\ny09: 0\n\nt06 AND c05 -> b06\ny03 AND x03 -> a03\nt03 AND c02 -> b03\na05 OR b05 -> c05\nx08 XOR y08 -> t08\nx03 XOR y03 -> t03\na07 OR b07 -> c07\na01 OR b01 -> c01\na06 OR b06 -> b04\na04 OR b04 -> c04\nx01 XOR y01 -> t01\ny05 AND x05 -> z03\nc06 XOR t07 -> z07\ny08 AND x08 -> a08\nt04 AND c03 -> c06\nc05 XOR t06 -> z06\nx04 XOR y04 -> t04\nt07 AND c06 -> b07\na02 OR b02 -> c02\ny06 AND x06 -> a06\nc07 XOR t08 -> z08\ny09 AND x09 -> a09\na09 OR b09 -> z10\nx07 XOR y07 -> t07\ny07 AND x07 -> a07\nc02 XOR t03 -> a05\nx00 AND y00 -> c00\nc01 XOR t02 -> z02\nx09 XOR y09 -> t09\nx02 XOR y02 -> t02\nc03 XOR t04 -> z04\ny04 AND x04 -> a04\nc04 XOR t05 -> z05\nt01 AND c00 -> b01\na08 OR b08 -> c08\nt02 AND c01 -> b02\nx06 XOR y06 -> t06\na03 OR b03 -> c03\nc00 XOR t01 -> z01\nx00 XOR y00 -> z00\nc08 XOR t09 -> z09\ny01 AND x01 -> a01\nx05 XOR y05 -> t05\nt05 AND c04 -> b05\ny02 AND x02 -> a02\nt08 AND c07 -> b08\nt09 AND c08 -> b09\n", Some(SolvedValue::Text("a05,z03".to_string()))),
        ("x00: 0\nx01: 1\nx02: 1\nx03: 1\nx04: 0\nx05: 0\nx06: 0\nx07: 0\nx08: 0\nx09: 1\ny00: 1\ny01: 0\ny02: 1\ny03: 0\ny04: 1\ny05: 0\ny06: 1\ny07: 1\ny08: 1\ny09: 0\n\nt07 AND c06 -> b07\nx04 XOR y04 -> t04\nt09 AND c08 -> b09\nt01 AND c00 -> b01\ny09 AND x09 -> a09\nx09 XOR y09 -> t09\na07 OR b07 -> c07\nt05 AND c04 -> b05\nx07 XOR y07 -> t07\nt02 AND c01 -> b02\nc08 XOR t09 -> z09\nx02 XOR y02 -> t02\nt08 AND c07 -> b08\na05 OR b05 -> c05\na02 OR b02 -> c02\nx06 XOR y06 -> t06\ny08 AND x08 -> a08\na01 OR b01 -> z06\ny01 AND x01 -> a01\ny02 AND x02 -> a02\ny06 AND x06 -> a06\nx00 AND y00 -> c00\na09 OR b09 -> z10\nx00 XOR y00 -> z00\nc06 XOR t07 -> z07\nx08 XOR y08 -> t08\nc03 XOR t04 -> z01\ny07 AND x07 -> a07\nx05 XOR y05 -> t05\ny05 AND x05 -> a05\nt04 AND c03 -> b04\na03 OR b03 -> c08\na04 OR b04 -> c04\nc01 XOR t02 -> z02\nc07 XOR t08 -> z08\nx03 XOR y03 -> t03\nx01 XOR y01 -> t01\ny04 AND x04 -> a04\nt06 AND c05 -> b06\nc00 XOR t01 -> z04\nc04 XOR t05 -> z05\na06 OR b06 -> c06\nc05 XOR t06 -> c01\na08 OR b08 -> c03\nc02 XOR t03 -> z03\ny03 AND x03 -> a03\nt03 AND c02 -> b03\n", Some(SolvedValue::Text("c01,z06".to_string()))),
        ("x00: 0\nx01: 0\nx02: 0\nx03: 1\nx04: 0\nx05: 1\nx06: 0\nx07: 1\nx08: 1\nx09: 0\ny00: 0\ny01: 1\ny02: 1\ny03: 1\ny04: 0\ny05: 1\ny06: 1\ny07: 1\ny08: 0\ny09: 1\n\na02 OR b02 -> c02\nt06 AND c05 -> t06\nx00 XOR y00 -> z00\nc00 XOR t01 -> z01\na01 OR b01 -> c01\na03 OR b03 -> c03\nc06 XOR t07 -> z07\na07 OR b07 -> c07\nc03 XOR t04 -> z04\na04 OR b04 -> c04\nx04 XOR y04 -> t04\nt09 AND c08 -> b09\nc02 XOR t03 -> z03\na09 OR b09 -> z10\nx01 XOR y01 -> t01\nx07 XOR y07 -> t07\nx05 XOR y05 -> t05\nc05 XOR t06 -> z06\ny09 AND x09 -> a09\nx02 XOR y02 -> t02\nx03 XOR y03 -> t03\nc04 XOR t05 -> z05\nt04 AND c03 -> b04\ny05 AND x05 -> a05\ny07 AND x07 -> a07\nx08 XOR y08 -> t08\nc01 XOR t02 -> z02\nt02 AND c01 -> b02\nc08 XOR t09 -> z09\nt03 AND c02 -> b03\nc07 XOR t08 -> z08\na08 OR b08 -> c08\ny08 AND x08 -> a08\na06 OR b06 -> c06\ny04 AND x04 -> a04\ny02 AND x02 -> a02\ny06 AND x06 -> a06\na05 OR b05 -> c05\ny01 AND x01 -> a01\nt01 AND c00 -> b01\ny03 AND x03 -> a03\nx09 XOR y09 -> t09\nt07 AND c06 -> b07\nt05 AND c04 -> b05\nt08 AND c07 -> b08\nx00 AND y00 -> c00\nx06 XOR y06 -> b06\n", Some(SolvedValue::Text("b06,t06".to_string()))),
        ("x00: 1\nx01: 1\nx02: 0\nx03: 1\nx04: 0\nx05: 1\nx06: 1\nx07: 1\nx08: 1\nx09: 0\ny00: 0\ny01: 1\ny02: 0\ny03: 0\ny04: 1\ny05: 0\ny06: 1\ny07: 0\ny08: 0\ny09: 1\n\nx09 XOR y09 -> t09\nx05 XOR y05 -> t05\na02 OR b02 -> c02\ny05 AND x05 -> a05\nt01 AND c00 -> b01\ny03 AND x03 -> a03\nx00 AND y00 -> c00\na04 OR b04 -> c04\nt06 AND c05 -> b06\nx08 XOR y08 -> t08\na05 OR b05 -> c05\nc06 XOR t07 -> z07\nc04 XOR t05 -> z05\ny01 AND x01 -> a01\nt04 AND c03 -> z06\ny04 AND x04 -> a04\ny08 AND x08 -> a08\nt03 AND c02 -> b03\ny06 AND x06 -> a06\nt02 AND c01 -> b02\nc05 XOR t06 -> b04\nc08 XOR t09 -> z09\nc01 XOR t02 -> z02\nx04 XOR y04 -> t04\ny09 AND x09 -> a09\na09 OR b09 -> z10\nx07 XOR y07 -> t07\nt05 AND c04 -> b05\nt07 AND c06 -> b07\nc07 XOR t08 -> z08\na06 OR b06 -> c06\nx03 XOR y03 -> t03\nt08 AND c07 -> b08\nc00 XOR t01 -> z01\na01 OR b01 -> c01\nx02 XOR y02 -> t02\nx06 XOR y06 -> t06\ny07 AND x07 -> a07\na03 OR b03 -> c03\nt09 AND c08 -> b09\nc03 XOR t04 -> z04\na08 OR b08 -> c08\nx01 XOR y01 -> t01\na07 OR b07 -> c07\nc02 XOR t03 -> z03\ny02 AND x02 -> a02\nx00 XOR y00 -> z00\n", Some(SolvedValue::Text("b04,z06".to_string()))),
    ];
    for (input, flagged) in cases {
        assert_eq!(day24::Day.part2(input), flagged, "{input:?}");
    }
}
