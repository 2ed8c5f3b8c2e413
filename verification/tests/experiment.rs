//! The experiment's decisions, the footprint's file and the command line.

use loom::args::{default_budget, default_region, parse_args, split_size};
use loom::footprint::{larger, parse_status, Footprint};
use loom::prove::{
    hot_blocks, skew_sequence, Event, Experiment, Finding, Middle, Order, Phase, Plan, ProveConfig,
    Refusal, When, PROCESS_SLACK,
};
use loom::MIB;

fn config() -> ProveConfig {
    ProveConfig {
        pool: String::from("pool"),
        size: 256 * MIB,
        budget: 8 * MIB,
        block_size: 64 * 1024,
        region: 160 * MIB,
        seed: 42,
        ops: 3,
        baselines: true,
        keep_pool: false,
        allow_small: false,
    }
}

/// Answer every order as a sound arena would, but for what `twist` changes.
fn run(plan: Plan, twist: impl Fn(Order, Phase) -> Option<Event>) -> Experiment {
    let mut e = Experiment::new(plan);
    loop {
        let o = e.order();
        let phase = e.known().phase;
        let usual = match o {
            Order::Finish => return e,
            Order::Measure | Order::Sample => Event::Footprint { bytes: Some(1000) },
            Order::Look => Event::Found { there: false },
            Order::Create => Event::Created {
                frames: 4,
                hot: 400,
                metadata: 50,
                disk: 4096,
            },
            Order::Allocate => Event::Allocated { first: 0 },
            Order::Write { .. } => Event::Wrote { sample: Some(1500) },
            Order::Inspect => Event::Inspected {
                disk: plan.region,
                resident: 4,
            },
            Order::Evict { scribble } => {
                assert_eq!(scribble, 0xEE);
                Event::Emptied { resident: 0 }
            }
            Order::Read { .. } => Event::Compared {
                at: None,
                sample: None,
            },
            Order::Reopen => Event::Reopened { same: true },
            Order::Flip { block, byte, mask } => {
                assert_eq!((block, byte, mask), (plan.blocks / 2, 4321, 0x40));
                assert!(phase == Phase::Flipping || phase == Phase::Restoring);
                Event::Done
            }
            Order::ReadMiddle { tag, block, close } if (tag, block) != (b'B', plan.blocks / 2) => {
                panic!("block {block} of pattern {tag}, close: {close}")
            }
            Order::ReadMiddle { close, .. } if close != (phase == Phase::ReadingFlipped) => {
                panic!("the pool is closed once")
            }
            Order::ReadMiddle { .. } => match phase {
                Phase::ReadingFlipped => Event::Middle {
                    how: Middle::Corrupt {
                        block: plan.blocks / 2,
                    },
                },
                _ => Event::Middle { how: Middle::Equal },
            },
            _ => Event::Done,
        };
        e.advance(twist(o, phase).unwrap_or(usual));
    }
}

fn plan(blocks: u64) -> Plan {
    Plan {
        region: blocks * 100,
        blocks,
        ops: 2,
        baselines: true,
        keep_pool: false,
        small: false,
    }
}

#[test]
fn a_config_is_checked() {
    let p = config().plan().unwrap();
    assert_eq!(p.blocks, 2560);
    assert!(!p.small);
    let mut c = config();
    c.region += 1;
    match c.plan() {
        Err(Refusal::Ragged(e)) => assert_eq!(
            e.message(),
            "invalid argument: region 167772161 must be a multiple of block size 65536"
        ),
        other => panic!("{other:?}"),
    }
}

#[test]
fn meaningless_geometry_is_refused() {
    let mut c = config();
    c.size = 64 * MIB;
    c.budget = 32 * MIB;
    c.region = 48 * MIB;
    assert!(matches!(c.plan(), Err(Refusal::TooSmall)));
    c.allow_small = true;
    assert!(c.plan().unwrap().small);
}

#[test]
fn a_sound_arena_passes() {
    let e = run(plan(5), |_, _| None);
    assert!(e.passed(), "{:?}", e.failures());
    let p = e.known();
    assert_eq!((p.right_a, p.right_b), (5, 5));
    assert!(p.detected && p.restored);
    assert_eq!(p.bound, 1000 + 400 + 50 + PROCESS_SLACK);
    assert_eq!(p.max, Some(1500));
    assert_eq!(p.middle, 2);
}

#[test]
fn every_false_claim_is_found() {
    let found = |twist: &dyn Fn(Order, Phase) -> Option<Event>| -> Vec<Finding> {
        run(plan(5), |o, p| twist(o, p)).failures().to_vec()
    };
    assert_eq!(
        found(&|o, _| match o {
            Order::Measure => Some(Event::Footprint { bytes: None }),
            _ => None,
        }),
        vec![Finding::NoWitness]
    );
    assert_eq!(
        found(&|o, _| match o {
            Order::Look => Some(Event::Found { there: true }),
            _ => None,
        }),
        vec![Finding::PoolExists]
    );
    assert_eq!(
        found(&|o, _| match o {
            Order::Create => Some(Event::Created {
                frames: 4,
                hot: 400,
                metadata: 50,
                disk: 16777217,
            }),
            _ => None,
        }),
        vec![Finding::NotSparse {
            allocated: 16777217
        }]
    );
    assert_eq!(
        found(&|o, _| match o {
            Order::Inspect => Some(Event::Inspected {
                disk: 99,
                resident: 5
            }),
            _ => None,
        }),
        vec![
            Finding::TooManyResident,
            Finding::NotOnDisk { allocated: 99 }
        ]
    );
    assert_eq!(
        found(&|o, _| match o {
            Order::Evict { .. } => Some(Event::Emptied { resident: 1 }),
            _ => None,
        }),
        vec![Finding::StillResident { blocks: 1 }]
    );
    assert_eq!(
        found(&|_, p| match p {
            Phase::ReadingA { b } if b >= 3 => Some(Event::Compared {
                at: Some(7 + b as usize),
                sample: None,
            }),
            _ => None,
        }),
        vec![Finding::LostA {
            mismatches: 2,
            block: 3,
            at: 10
        }]
    );
    assert_eq!(
        found(&|_, p| match p {
            Phase::ReadingB { b: 4 } => Some(Event::Compared {
                at: Some(0),
                sample: None,
            }),
            _ => None,
        }),
        vec![Finding::LostB {
            mismatches: 1,
            block: 4,
            at: 0
        }]
    );
    assert_eq!(
        found(&|o, _| match o {
            Order::Reopen => Some(Event::Reopened { same: false }),
            _ => None,
        }),
        vec![Finding::RegionLost]
    );
    assert_eq!(
        found(&|o, _| match o {
            Order::Sync => Some(Event::Failed),
            _ => None,
        }),
        vec![Finding::Aborted]
    );
    let middle = |how: Middle, at: Phase| -> Vec<Finding> {
        run(plan(5), |_, p| {
            if p == at {
                Some(Event::Middle { how })
            } else {
                None
            }
        })
        .failures()
        .to_vec()
    };
    assert_eq!(
        middle(Middle::Equal, Phase::ReadingFlipped),
        vec![Finding::Undetected]
    );
    assert_eq!(
        middle(Middle::Corrupt { block: 3 }, Phase::ReadingFlipped),
        vec![Finding::WrongError]
    );
    assert_eq!(
        middle(Middle::Error, Phase::ReadingFlipped),
        vec![Finding::WrongError]
    );
    assert_eq!(
        middle(Middle::Different, Phase::ReadingRestored),
        vec![Finding::WrongAfterRestore]
    );
    assert_eq!(
        middle(Middle::Corrupt { block: 2 }, Phase::ReadingRestored),
        vec![Finding::ErrorAfterRestore]
    );
}

#[test]
fn the_footprint_is_held_against_its_bound() {
    let e = run(plan(5), |_, p| match p {
        Phase::ReadingA { b: 0 } => Some(Event::Compared {
            at: None,
            sample: Some(u64::MAX),
        }),
        _ => None,
    });
    let bound = e.known().bound;
    let over = |when: When| Finding::OverBound {
        when,
        max: u64::MAX,
        bound,
    };
    assert_eq!(
        e.failures(),
        &[
            over(When::AfterReadA),
            over(When::AfterReadB),
            over(When::AfterSkew)
        ]
    );
}

#[test]
fn passes_sample_now_and_then() {
    let mut samples = 0;
    let mut e = Experiment::new(plan(600));
    e.advance(Event::Footprint { bytes: Some(0) });
    e.advance(Event::Found { there: false });
    e.advance(Event::Created {
        frames: 1,
        hot: 1,
        metadata: 1,
        disk: 0,
    });
    e.advance(Event::Allocated { first: 9 });
    assert_eq!(e.known().middle, 309);
    while let Order::Write { tag, block, sample } = e.order() {
        assert_eq!(tag, b'A');
        assert_eq!(sample, block % 256 == 0);
        if sample {
            samples += 1;
        }
        e.advance(Event::Wrote { sample: None });
    }
    assert_eq!(samples, 3);
    assert_eq!(e.order(), Order::Sample);
}

#[test]
fn the_skewed_sequence_is_skewed_and_inside() {
    let v = skew_sequence(42, 10_000, 10, 1000);
    assert_eq!(v.len(), 10_000);
    assert!(v.iter().all(|&b| b < 1000));
    let hot = v.iter().filter(|&&b| b < 10).count();
    assert!((8800..=9300).contains(&hot), "{hot}");
    assert_eq!(v, skew_sequence(42, 10_000, 10, 1000));
    assert_ne!(v, skew_sequence(44, 10_000, 10, 1000));
    assert_eq!(hot_blocks(100, 1000), 80);
    assert_eq!(hot_blocks(1, 1000), 1);
    assert_eq!(hot_blocks(5000, 1000), 1000);
}

#[test]
fn a_status_file_is_read() {
    let text = b"Name:\tx\nVmRSS:\t    2048 kB\nRssAnon:\t 1000 kB\nRssFile:\t+7 kB\nRssShmem:\t24 kB\n";
    let s = parse_status(text);
    assert_eq!(s.anon, Some(1000));
    assert_eq!(s.shmem, Some(24));
    assert_eq!(s.file, Some(7));
    assert_eq!(s.rss, Some(2048));
    assert!(s.sizes_fit());
    let f = Footprint::from_status(s).unwrap();
    assert_eq!(f.footprint, 1024 * 1024);
    assert_eq!(f.compressed, None);
    assert_eq!(f.file_resident, Some(7 * 1024));
    assert_eq!(f.resident, Some(2 * 1024 * 1024));
    assert_eq!(f.source, "/proc/self/status RssAnon+RssShmem");
}

#[test]
fn a_status_file_without_numbers_gives_none() {
    let s = parse_status(b"RssAnon: many kB\nRssShmem:\nRssFile: 99999999999999999999 kB\nVmRSS: 1");
    assert_eq!((s.anon, s.shmem, s.file, s.rss), (None, None, None, Some(1)));
    assert_eq!(
        Footprint::from_status(s).unwrap_err(),
        "RssAnon/RssShmem missing from /proc/self/status (kernel < 4.5?)"
    );
    assert_eq!(parse_status(b"").anon, None);
    // The last line of a name counts; a number must be digits.
    assert_eq!(parse_status(b"RssAnon: 1\nRssAnon: 2\n").anon, Some(2));
    assert_eq!(parse_status(b"RssAnon: 1\nRssAnon: 2x\n").anon, None);
    assert_eq!(parse_status(b"RssAnon: +\n").anon, None);
    // White space is what Unicode calls so.
    for space in ["\u{85}", "\u{a0}", "\u{1680}", "\u{2000}", "\u{200a}", "\u{2028}", "\u{2029}"]
        .iter()
        .chain(&["\u{202f}", "\u{205f}", "\u{3000}", "\t", "\u{b} \u{a0}"])
    {
        let text = format!("RssAnon:{space}12{space}kB\n");
        assert_eq!(text.split_whitespace().nth(1), Some("12"));
        assert_eq!(parse_status(text.as_bytes()).anon, Some(12));
    }
    for other in ["\u{200b}", "\u{feff}", "\u{e1}", "\u{1681}"] {
        let text = format!("RssAnon: 12{other}\n");
        assert_eq!(parse_status(text.as_bytes()).anon, None);
    }
    assert!(!parse_status(b"RssAnon: 18446744073709551615\n").sizes_fit());
}

#[test]
fn the_larger_footprint_stays() {
    let f = |n: u64, source: &'static str| Footprint {
        footprint: n,
        compressed: None,
        file_resident: None,
        resident: None,
        source,
    };
    assert_eq!(larger(None, f(1, "a")), f(1, "a"));
    assert_eq!(larger(Some(f(1, "a")), f(2, "b")), f(2, "b"));
    assert_eq!(larger(Some(f(2, "a")), f(2, "b")), f(2, "a"));
}

#[test]
fn arguments_are_sorted_out() {
    let argv: Vec<String> = ["pool", "--size", "4G", "--keep", "x", "--size", "8G", "--seed"]
        .iter()
        .map(|s| s.to_string())
        .collect();
    let a = parse_args(&argv);
    assert_eq!(a.positional, vec!["pool", "x"]);
    assert_eq!(a.flag("size"), Some("4G"));
    assert_eq!(a.flag("seed"), None);
    assert!(a.has("seed"));
    assert!(a.has("keep"));
    assert_eq!(a.flag("keep"), None);
    assert!(!a.has("budget"));
    assert_eq!(a.flag("budget"), None);
    assert_eq!(a.flags.len(), 4);
}

#[test]
fn sizes_are_taken_apart() {
    assert_eq!(split_size("64K"), (String::from("64"), 1 << 10));
    assert_eq!(split_size("512m"), (String::from("512"), 1 << 20));
    assert_eq!(split_size("1.5G"), (String::from("1.5"), 1 << 30));
    assert_eq!(split_size("1t"), (String::from("1"), 1 << 40));
    assert_eq!(split_size("4096"), (String::from("4096"), 1));
    assert_eq!(split_size(""), (String::new(), 1));
    assert_eq!(split_size("K"), (String::new(), 1 << 10));
    assert_eq!(default_budget(1 << 30, 65536), 1 << 26);
    assert_eq!(default_budget(65536, 65536), 65536);
    assert_eq!(default_region(1 << 30), 3 << 28);
    assert_eq!(default_region(7), 3);
}

#[test]
fn a_flag_may_need_a_value() {
    let argv: Vec<String> = ["--size", "4G", "--size", "--budget"]
        .iter()
        .map(|s| s.to_string())
        .collect();
    let a = parse_args(&argv);
    assert_eq!(a.value("size"), Ok(Some("4G")));
    assert_eq!(a.value("block"), Ok(None));
    let a = parse_args(&argv[3..]);
    assert_eq!(a.value("budget"), Err(String::from("--budget needs a value")));
}
