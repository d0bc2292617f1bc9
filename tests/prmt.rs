use nouveau::prmt::{BasicBlock, Dst, Function, Instr, Op, OpPrmt, PrmtMode, Shader, Src};

fn prmt(dst: u32, a: Src, b: Src, sel: Src) -> Instr {
    Instr {
        op: Op::Prmt(OpPrmt {
            dst: Dst::SSA(dst),
            srcs: [a, b],
            sel,
            mode: PrmtMode::Index,
        }),
    }
}

fn shader_of(instrs: Vec<Instr>) -> Shader {
    Shader {
        functions: vec![Function {
            blocks: vec![BasicBlock { instrs }],
        }],
    }
}

fn op_at(shader: &Shader, block: usize, i: usize) -> OpPrmt {
    match shader.functions[0].blocks[block].instrs[i].op {
        Op::Prmt(op) => op,
        Op::Other(_) => panic!("not a permute"),
    }
}

// What a permute computes, byte by byte.
fn byte_of(x: u32, k: u32) -> u32 {
    (x >> (k * 8)) & 0xff
}

fn eval_prmt(a: u32, b: u32, sel: u32) -> u32 {
    let mut r: u32 = 0;
    for i in 0..4 {
        let field = (sel >> (i * 4)) & 0xf;
        let k = field & 7;
        let mut v = if k < 4 { byte_of(a, k) } else { byte_of(b, k - 4) };
        if field & 8 != 0 {
            v = if v & 0x80 != 0 { 0xff } else { 0 };
        }
        r |= v << (i * 8);
    }
    r
}

fn value(src: Src, env: &[u32]) -> u32 {
    match src {
        Src::Imm32(v) => v,
        Src::SSA(x) => env[x as usize],
    }
}

fn sel_of(op: &OpPrmt) -> u32 {
    match op.sel {
        Src::Imm32(v) => v,
        Src::SSA(_) => panic!("selector is no literal"),
    }
}

// Evaluates each permute in order, writing its destination into `env`.
fn run_program(shader: &Shader, env: &mut Vec<u32>) {
    for instr in &shader.functions[0].blocks[0].instrs {
        if let Op::Prmt(op) = instr.op {
            let v = eval_prmt(value(op.srcs[0], env), value(op.srcs[1], env), sel_of(&op));
            if let Dst::SSA(d) = op.dst {
                env[d as usize] = v;
            }
        }
    }
}

#[test]
fn fused_consumer_reads_producer_source_directly() {
    // P = prmt(X, Y, 0x00000001); C = prmt(P, Z, 0x6540)
    let mut shader = shader_of(vec![
        prmt(10, Src::SSA(1), Src::SSA(2), Src::Imm32(0x00000001)),
        prmt(11, Src::SSA(10), Src::SSA(3), Src::Imm32(0x6540)),
    ]);
    shader.opt_prmt();
    let c = op_at(&shader, 0, 1);
    assert_eq!(c.srcs, [Src::SSA(1), Src::SSA(3)]);
    assert_eq!(c.sel, Src::Imm32(0x6541));
    // the producer itself is left in place
    assert_eq!(op_at(&shader, 0, 0).srcs, [Src::SSA(1), Src::SSA(2)]);
}

#[test]
fn dead_producer_slot_is_reused() {
    // P reads only X; C = prmt(Z, P, 0x5140) reads both slots
    let mut shader = shader_of(vec![
        prmt(10, Src::SSA(1), Src::SSA(2), Src::Imm32(0x0123)),
        prmt(11, Src::SSA(3), Src::SSA(10), Src::Imm32(0x5140)),
    ]);
    shader.opt_prmt();
    let c = op_at(&shader, 0, 1);
    assert_eq!(c.srcs, [Src::SSA(3), Src::SSA(1)]);
    assert_eq!(c.sel, Src::Imm32(0x6170));
}

#[test]
fn three_link_chain_collapses() {
    let mut shader = shader_of(vec![
        prmt(10, Src::SSA(1), Src::SSA(2), Src::Imm32(0x3210)),
        prmt(11, Src::SSA(10), Src::SSA(3), Src::Imm32(0x7610)),
        prmt(12, Src::SSA(11), Src::Imm32(0), Src::Imm32(0x3210)),
    ]);
    shader.opt_prmt();
    let c = op_at(&shader, 0, 2);
    assert_eq!(c.srcs, [Src::SSA(1), Src::SSA(3)]);
    assert_eq!(c.sel, Src::Imm32(0x7610));
}

#[test]
fn chain_across_blocks_collapses() {
    let mut shader = Shader {
        functions: vec![Function {
            blocks: vec![
                BasicBlock {
                    instrs: vec![prmt(10, Src::SSA(1), Src::SSA(2), Src::Imm32(0x3210))],
                },
                BasicBlock {
                    instrs: vec![
                        Instr { op: Op::Other(7) },
                        prmt(11, Src::SSA(10), Src::Imm32(0), Src::Imm32(0x0000)),
                    ],
                },
            ],
        }],
    };
    shader.opt_prmt();
    assert_eq!(shader.functions[0].blocks[1].instrs[0].op, Op::Other(7));
    let c = op_at(&shader, 1, 1);
    assert_eq!(c.srcs, [Src::SSA(1), Src::Imm32(0)]);
    assert_eq!(c.sel, Src::Imm32(0x0000));
}

#[test]
fn non_literal_selector_is_not_folded() {
    let mut shader = shader_of(vec![
        prmt(10, Src::SSA(1), Src::SSA(2), Src::Imm32(0x3210)),
        prmt(11, Src::SSA(10), Src::SSA(3), Src::SSA(4)),
    ]);
    let before = op_at(&shader, 0, 1);
    shader.opt_prmt();
    assert_eq!(op_at(&shader, 0, 1), before);
}

#[test]
fn other_modes_are_not_recorded() {
    let mut shader = shader_of(vec![
        Instr {
            op: Op::Prmt(OpPrmt {
                dst: Dst::SSA(10),
                srcs: [Src::SSA(1), Src::SSA(2)],
                sel: Src::Imm32(0x3210),
                mode: PrmtMode::Replicate8,
            }),
        },
        prmt(11, Src::SSA(10), Src::SSA(3), Src::Imm32(0x5410)),
    ]);
    shader.opt_prmt();
    let c = op_at(&shader, 0, 1);
    assert_eq!(c.srcs, [Src::SSA(10), Src::SSA(3)]);
    assert_eq!(c.sel, Src::Imm32(0x5410));
}

#[test]
fn other_mode_consumer_is_not_folded() {
    let consumer = Instr {
        op: Op::Prmt(OpPrmt {
            dst: Dst::SSA(11),
            srcs: [Src::SSA(10), Src::SSA(3)],
            sel: Src::Imm32(0x3210),
            mode: PrmtMode::Forward4Extract,
        }),
    };
    let mut shader = shader_of(vec![
        prmt(10, Src::SSA(1), Src::SSA(2), Src::Imm32(0x3210)),
        consumer,
        prmt(12, Src::SSA(11), Src::SSA(4), Src::Imm32(0x5410)),
    ]);
    shader.opt_prmt();
    assert_eq!(shader.functions[0].blocks[0].instrs[1], consumer);
    // nor is it recorded as a producer
    let c = op_at(&shader, 0, 2);
    assert_eq!(c.srcs, [Src::SSA(11), Src::SSA(4)]);
    assert_eq!(c.sel, Src::Imm32(0x5410));
}

#[test]
fn matching_source_wins_over_dead_sub_slot() {
    // P = prmt(X, Y, 0x7654) never reads X; C = prmt(P, Y, 0x5410) shares Y
    let mut shader = shader_of(vec![
        prmt(10, Src::SSA(1), Src::SSA(2), Src::Imm32(0x7654)),
        prmt(11, Src::SSA(10), Src::SSA(2), Src::Imm32(0x5410)),
    ]);
    shader.opt_prmt();
    let c = op_at(&shader, 0, 1);
    assert_eq!(c.srcs, [Src::Imm32(0), Src::SSA(2)]);
    assert_eq!(c.sel, Src::Imm32(0x5454));
}

#[test]
fn extend_flag_of_producer_is_kept() {
    // P sign-extends byte 1 of X into byte 0; C reads byte 0 of P plainly
    let mut shader = shader_of(vec![
        prmt(10, Src::SSA(1), Src::SSA(2), Src::Imm32(0x0009)),
        prmt(11, Src::SSA(10), Src::SSA(3), Src::Imm32(0x4440)),
    ]);
    shader.opt_prmt();
    let c = op_at(&shader, 0, 1);
    assert_eq!(c.sel, Src::Imm32(0x4449));
    assert_eq!(c.srcs, [Src::SSA(1), Src::SSA(3)]);
}

#[test]
fn extend_flag_of_consumer_is_kept() {
    let mut shader = shader_of(vec![
        prmt(10, Src::SSA(1), Src::SSA(2), Src::Imm32(0x0001)),
        prmt(11, Src::SSA(10), Src::SSA(3), Src::Imm32(0x4448)),
    ]);
    shader.opt_prmt();
    assert_eq!(op_at(&shader, 0, 1).sel, Src::Imm32(0x4449));
}

#[test]
fn dead_slots_get_the_zero_filler() {
    // C reads only byte 2 of P, which P takes from Y: X is no longer read
    let mut shader = shader_of(vec![
        prmt(10, Src::SSA(1), Src::SSA(2), Src::Imm32(0x3540)),
        prmt(11, Src::SSA(10), Src::Imm32(0), Src::Imm32(0x2222)),
    ]);
    shader.opt_prmt();
    let c = op_at(&shader, 0, 1);
    assert_eq!(c.sel, Src::Imm32(0x5555));
    assert_eq!(c.srcs, [Src::Imm32(0), Src::SSA(2)]);
}

#[test]
fn folding_keeps_every_output_byte() {
    let programs = vec![
        vec![
            prmt(10, Src::SSA(1), Src::SSA(2), Src::Imm32(0x0001)),
            prmt(11, Src::SSA(10), Src::SSA(3), Src::Imm32(0x6540)),
        ],
        vec![
            prmt(10, Src::SSA(1), Src::SSA(2), Src::Imm32(0xc3a5)),
            prmt(11, Src::SSA(3), Src::SSA(10), Src::Imm32(0x5e47)),
        ],
        vec![
            prmt(10, Src::SSA(1), Src::SSA(2), Src::Imm32(0x3210)),
            prmt(11, Src::SSA(10), Src::SSA(3), Src::Imm32(0x7610)),
            prmt(12, Src::SSA(11), Src::SSA(1), Src::Imm32(0xb4c2)),
        ],
    ];
    let inputs: [u32; 3] = [0x80ff7f01, 0x12345678, 0xfedcba98];
    for program in programs {
        let unfolded = shader_of(program.clone());
        let mut folded = shader_of(program);
        folded.opt_prmt();
        let mut env_a = vec![0u32; 16];
        let mut env_b = vec![0u32; 16];
        for (k, v) in inputs.iter().enumerate() {
            env_a[k + 1] = *v;
            env_b[k + 1] = *v;
        }
        run_program(&unfolded, &mut env_a);
        run_program(&folded, &mut env_b);
        assert_eq!(env_a, env_b);
    }
}

#[test]
fn second_run_changes_nothing_on_a_chain() {
    let mut shader = shader_of(vec![
        prmt(10, Src::SSA(1), Src::SSA(2), Src::Imm32(0x3210)),
        prmt(11, Src::SSA(10), Src::SSA(3), Src::Imm32(0x7610)),
        prmt(12, Src::SSA(11), Src::Imm32(0), Src::Imm32(0x3210)),
    ]);
    shader.opt_prmt();
    let once: Vec<Instr> = shader.functions[0].blocks[0].instrs.clone();
    shader.opt_prmt();
    assert_eq!(shader.functions[0].blocks[0].instrs, once);
}
