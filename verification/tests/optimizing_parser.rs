use bfjit::error::BfError;
use bfjit::opjit::parser::{
    compile, create_ast, optimize_loops, parse, AstNode, AstSeq, Instruction, Program,
};

#[test]
fn parser_parse_test() {
    let program = parse(">a<+bcde-,_.[]._1[.]234567890か").unwrap();
    assert_eq!(
        program,
        Program {
            instructions: vec![
                Instruction::IncPtr { count: 1 },
                Instruction::DecPtr { count: 1 },
                Instruction::IncData { count: 1 },
                Instruction::DecData { count: 1 },
                Instruction::Read { count: 1 },
                Instruction::Write { count: 1 },
                Instruction::JumpBegin,
                Instruction::JumpEnd,
                Instruction::Write { count: 1 },
                Instruction::JumpBegin,
                Instruction::Write { count: 1 },
                Instruction::JumpEnd,
            ],
        }
    );
}

#[test]
fn parser_parse_count_test() {
    let program = parse(">>[>>><<+---,,],..").unwrap();
    assert_eq!(
        program,
        Program {
            instructions: vec![
                Instruction::IncPtr { count: 2 },
                Instruction::JumpBegin,
                Instruction::IncPtr { count: 3 },
                Instruction::DecPtr { count: 2 },
                Instruction::IncData { count: 1 },
                Instruction::DecData { count: 3 },
                Instruction::Read { count: 2 },
                Instruction::JumpEnd,
                Instruction::Read { count: 1 },
                Instruction::Write { count: 2 },
            ],
        }
    );
}

#[test]
fn nested_loops_test() {
    let program = parse(".[..[.....]...]..").unwrap();
    assert_eq!(
        program,
        Program {
            instructions: vec![
                Instruction::Write { count: 1 },
                Instruction::JumpBegin,
                Instruction::Write { count: 2 },
                Instruction::JumpBegin,
                Instruction::Write { count: 5 },
                Instruction::JumpEnd,
                Instruction::Write { count: 3 },
                Instruction::JumpEnd,
                Instruction::Write { count: 2 },
            ],
        }
    );
}

#[test]
fn optimized_loops_test() {
    assert_eq!(
        parse("[>]").unwrap(),
        Program {
            instructions: vec![Instruction::MovePtrUntilZero {
                count: 1,
                forward: true,
                amount: 1,
            },],
        }
    );
    assert_eq!(
        parse("[<]").unwrap(),
        Program {
            instructions: vec![Instruction::MovePtrUntilZero {
                count: 1,
                forward: false,
                amount: 1,
            },],
        }
    );
    assert_eq!(
        parse("[>>>]").unwrap(),
        Program {
            instructions: vec![Instruction::MovePtrUntilZero {
                count: 1,
                forward: true,
                amount: 3,
            },],
        }
    );
    assert_eq!(
        parse("[<<<]").unwrap(),
        Program {
            instructions: vec![Instruction::MovePtrUntilZero {
                count: 1,
                forward: false,
                amount: 3,
            },],
        }
    );

    assert_eq!(
        parse("[+]").unwrap(),
        Program {
            instructions: vec![Instruction::SetDataToZero,],
        }
    );
    assert_eq!(
        parse("[-]").unwrap(),
        Program {
            instructions: vec![Instruction::SetDataToZero,],
        }
    );
    assert_eq!(
        parse("[++++++]").unwrap(),
        Program {
            instructions: vec![Instruction::SetDataToZero,],
        }
    );
    assert_eq!(
        parse("[-----]").unwrap(),
        Program {
            instructions: vec![Instruction::SetDataToZero,],
        }
    );

    assert_eq!(
        parse("[->+<]").unwrap(),
        Program {
            instructions: vec![Instruction::MoveData {
                count: 1,
                forward: true,
                amount: 1
            },],
        }
    );
    assert_eq!(
        parse("[-<+>]").unwrap(),
        Program {
            instructions: vec![Instruction::MoveData {
                count: 1,
                forward: false,
                amount: 1
            },],
        }
    );
    assert_eq!(
        parse("[->>>>+<<<<]").unwrap(),
        Program {
            instructions: vec![Instruction::MoveData {
                count: 1,
                forward: true,
                amount: 4
            },],
        }
    );
    assert_eq!(
        parse("[-<<<<+>>>>]").unwrap(),
        Program {
            instructions: vec![Instruction::MoveData {
                count: 1,
                forward: false,
                amount: 4
            },],
        }
    );

    assert_eq!(
        parse("[>][>]").unwrap(),
        Program {
            instructions: vec![Instruction::MovePtrUntilZero {
                count: 2,
                forward: true,
                amount: 1,
            },],
        }
    );
    assert_eq!(
        parse("[<][<]").unwrap(),
        Program {
            instructions: vec![Instruction::MovePtrUntilZero {
                count: 2,
                forward: false,
                amount: 1,
            },],
        }
    );
    assert_eq!(
        parse("[+][+]").unwrap(),
        Program {
            instructions: vec![Instruction::SetDataToZero,],
        }
    );
    assert_eq!(
        parse("[-][-]").unwrap(),
        Program {
            instructions: vec![Instruction::SetDataToZero,],
        }
    );
    assert_eq!(
        parse("[->+<][->+<]").unwrap(),
        Program {
            instructions: vec![Instruction::MoveData {
                count: 2,
                forward: true,
                amount: 1,
            },],
        }
    );
    assert_eq!(
        parse("[-<+>][-<+>]").unwrap(),
        Program {
            instructions: vec![Instruction::MoveData {
                count: 2,
                forward: false,
                amount: 1,
            },],
        }
    );

    assert_eq!(
        parse("[<<<>]").unwrap(),
        Program {
            instructions: vec![
                Instruction::JumpBegin,
                Instruction::DecPtr { count: 3 },
                Instruction::IncPtr { count: 1 },
                Instruction::JumpEnd,
            ],
        }
    );
    assert_eq!(
        parse("[+++-]").unwrap(),
        Program {
            instructions: vec![
                Instruction::JumpBegin,
                Instruction::IncData { count: 3 },
                Instruction::DecData { count: 1 },
                Instruction::JumpEnd,
            ],
        }
    );
    assert_eq!(
        parse("[->>+<]").unwrap(),
        Program {
            instructions: vec![
                Instruction::JumpBegin,
                Instruction::DecData { count: 1 },
                Instruction::IncPtr { count: 2 },
                Instruction::IncData { count: 1 },
                Instruction::DecPtr { count: 1 },
                Instruction::JumpEnd,
            ],
        }
    );
    assert_eq!(
        parse("[->+<<]").unwrap(),
        Program {
            instructions: vec![
                Instruction::JumpBegin,
                Instruction::DecData { count: 1 },
                Instruction::IncPtr { count: 1 },
                Instruction::IncData { count: 1 },
                Instruction::DecPtr { count: 2 },
                Instruction::JumpEnd,
            ],
        }
    );
    assert_eq!(
        parse("[->>>+<<<<]").unwrap(),
        Program {
            instructions: vec![
                Instruction::JumpBegin,
                Instruction::DecData { count: 1 },
                Instruction::IncPtr { count: 3 },
                Instruction::IncData { count: 1 },
                Instruction::DecPtr { count: 4 },
                Instruction::JumpEnd,
            ],
        }
    );
    assert_eq!(
        parse("[->+<.]").unwrap(),
        Program {
            instructions: vec![
                Instruction::JumpBegin,
                Instruction::DecData { count: 1 },
                Instruction::IncPtr { count: 1 },
                Instruction::IncData { count: 1 },
                Instruction::DecPtr { count: 1 },
                Instruction::Write { count: 1 },
                Instruction::JumpEnd,
            ],
        }
    );
}

#[test]
fn nested_optimized_loops_test() {
    assert_eq!(
        parse("..[...[++]..].").unwrap(),
        Program {
            instructions: vec![
                Instruction::Write { count: 2 },
                Instruction::JumpBegin,
                Instruction::Write { count: 3 },
                Instruction::SetDataToZero,
                Instruction::Write { count: 2 },
                Instruction::JumpEnd,
                Instruction::Write { count: 1 },
            ],
        }
    );
}

#[test]
fn parser_parse_error_test() {
    let err = parse("..[...").unwrap_err();
    assert_eq!(err, BfError::Parse("Unmatched '[' at index 2.".to_owned()));

    let err = parse("...]...").unwrap_err();
    assert_eq!(err, BfError::Parse("Unmatched ']' at index 3.".to_owned()));
}

#[test]
fn first_offender_is_the_outermost_open_loop() {
    let err = parse("+[[-]>[").unwrap_err();
    assert_eq!(err, BfError::Parse("Unmatched '[' at index 1.".to_owned()));
    let err = create_ast("[]]").unwrap_err();
    assert_eq!(err, BfError::Parse("Unmatched ']' at index 2.".to_owned()));
}

#[test]
fn create_ast_builds_the_tree() {
    let ast = create_ast("+[>[-]x<]").unwrap();
    assert_eq!(
        ast,
        AstSeq {
            children: vec![
                AstNode::IncData,
                AstNode::Loop {
                    seq: AstSeq {
                        children: vec![
                            AstNode::IncPtr,
                            AstNode::Loop {
                                seq: AstSeq {
                                    children: vec![AstNode::DecData]
                                }
                            },
                            AstNode::DecPtr,
                        ]
                    }
                },
            ]
        }
    );
}

#[test]
fn optimize_loops_rewrites_inner_loops_and_is_idempotent() {
    let ast = create_ast("+[>[-]<[->>+<<]]").unwrap();
    let once = optimize_loops(ast);
    assert_eq!(
        once,
        AstSeq {
            children: vec![
                AstNode::IncData,
                AstNode::Loop {
                    seq: AstSeq {
                        children: vec![
                            AstNode::IncPtr,
                            AstNode::SetDataToZero,
                            AstNode::DecPtr,
                            AstNode::MoveData {
                                forward: true,
                                amount: 2
                            },
                        ]
                    }
                },
            ]
        }
    );
    let again = optimize_loops(create_ast("+[>[-]<[->>+<<]]").map(optimize_loops).unwrap());
    assert_eq!(again, once);
}

#[test]
fn empty_loop_and_odd_bodies_stay_loops() {
    assert_eq!(
        parse("[]").unwrap().instructions,
        vec![Instruction::JumpBegin, Instruction::JumpEnd]
    );
    assert_eq!(
        parse("[-+]").unwrap().instructions,
        vec![
            Instruction::JumpBegin,
            Instruction::DecData { count: 1 },
            Instruction::IncData { count: 1 },
            Instruction::JumpEnd
        ]
    );
    assert_eq!(
        parse("[-><+]").unwrap().instructions,
        vec![
            Instruction::JumpBegin,
            Instruction::DecData { count: 1 },
            Instruction::IncPtr { count: 1 },
            Instruction::DecPtr { count: 1 },
            Instruction::IncData { count: 1 },
            Instruction::JumpEnd
        ]
    );
}

#[test]
fn compile_counts_equal_neighbours() {
    let seq = AstSeq {
        children: vec![
            AstNode::MoveData {
                forward: true,
                amount: 2,
            },
            AstNode::MoveData {
                forward: true,
                amount: 3,
            },
            AstNode::MoveData {
                forward: true,
                amount: 3,
            },
            AstNode::Read,
            AstNode::Read,
            AstNode::Read,
        ],
    };
    assert_eq!(
        compile(seq),
        vec![
            Instruction::MoveData {
                count: 1,
                forward: true,
                amount: 2
            },
            Instruction::MoveData {
                count: 2,
                forward: true,
                amount: 3
            },
            Instruction::Read { count: 3 },
        ]
    );
}

#[test]
fn create_ast_fails_on_unbalanced_brackets_only() {
    assert!(create_ast("").is_ok());
    assert!(create_ast("no commands at all").is_ok());
    assert!(create_ast("[[][[]]]").is_ok());
    assert_eq!(
        create_ast("[[]").unwrap_err(),
        BfError::Parse("Unmatched '[' at index 0.".to_owned())
    );
    assert_eq!(
        create_ast("x]").unwrap_err(),
        BfError::Parse("Unmatched ']' at index 1.".to_owned())
    );
}
