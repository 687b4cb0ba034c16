use rusty_brainfuck::BfError;
use rusty_brainfuck::CodeGen;
use rusty_brainfuck::Inst;

#[test]
fn fold_runs() {
    let mut cg = CodeGen::new("+++");
    assert_eq!(cg.generate_insts().unwrap(), vec![Inst::Add(3)]);
    let mut cg = CodeGen::new(">>><<");
    assert_eq!(cg.generate_insts().unwrap(), vec![Inst::Shr(3), Inst::Shl(2)]);
    let mut cg = CodeGen::new("+-+");
    assert_eq!(
        cg.generate_insts().unwrap(),
        vec![Inst::Add(1), Inst::Sub(1), Inst::Add(1)]
    );
}

#[test]
fn fold_splits_long_value_runs() {
    let program = "+".repeat(300);
    let mut cg = CodeGen::new(&program);
    assert_eq!(cg.generate_insts().unwrap(), vec![Inst::Add(255), Inst::Add(45)]);
}

#[test]
fn comments_are_dropped() {
    let mut cg = CodeGen::new("a + b + c!");
    assert_eq!(cg.generate_insts().unwrap(), vec![Inst::Add(2)]);
}

#[test]
fn clear_idiom_rewritten() {
    let mut cg = CodeGen::new("[-]");
    assert_eq!(cg.generate_insts().unwrap(), vec![Inst::Stz]);
    let mut cg = CodeGen::new("+[-]");
    assert_eq!(cg.generate_insts().unwrap(), vec![Inst::Add(1), Inst::Stz]);
}

#[test]
fn near_miss_idiom_left_alone() {
    let mut cg = CodeGen::new("[--]");
    assert_eq!(
        cg.generate_insts().unwrap(),
        vec![Inst::Jpf(2), Inst::Sub(2), Inst::Jpb(0)]
    );
}

#[test]
fn brackets_resolved_mutually() {
    let mut cg = CodeGen::new("[[]]");
    assert_eq!(
        cg.generate_insts().unwrap(),
        vec![Inst::Jpf(3), Inst::Jpf(2), Inst::Jpb(1), Inst::Jpb(0)]
    );
    let mut cg = CodeGen::new("[->+<]");
    assert_eq!(
        cg.generate_insts().unwrap(),
        vec![
            Inst::Jpf(5),
            Inst::Sub(1),
            Inst::Shr(1),
            Inst::Add(1),
            Inst::Shl(1),
            Inst::Jpb(0)
        ]
    );
}

#[test]
fn unbalanced_sources_rejected() {
    let bad = ["[", "]", "[[]", "[]]", "][", "+++[>", "a]b"];
    for src in bad {
        let mut cg = CodeGen::new(src);
        match cg.generate_insts() {
            Err(e) => {
                assert_eq!(e, BfError::UnbalancedBrackets);
                assert_eq!(e.message(), "Jumptable can't be constructed.");
            },
            Ok(_) => panic!("an unbalanced source compiled: {}", src),
        }
    }
    let good = ["", "[]", "a[b]c", "[[][]]"];
    for src in good {
        let mut cg = CodeGen::new(src);
        assert!(cg.generate_insts().is_ok());
    }
}
