//! The answers of the `uname` stand-in that the test environment provides.

use vstd::prelude::*;

use crate::text;

verus! {

/// What the single option `a` prints, where it is one that is answered.
pub open spec fn option_output(a: Seq<char>) -> Option<Seq<char>> {
    if a == "-s"@ || a == "--kernel-name"@ {
        Some("Linux"@)
    } else if a == "-a"@ || a == "--all"@ {
        Some("Linux wasix 0.0.0 wasix wasm32 GNU/Linux"@)
    } else if a == "-m"@ || a == "--machine"@ {
        Some("wasm32"@)
    } else if a == "-o"@ || a == "--operating-system"@ {
        Some("GNU/Linux"@)
    } else if a == "-r"@ || a == "--kernel-release"@ {
        Some("0.0.0"@)
    } else if a == "-v"@ || a == "--kernel-version"@ {
        Some("wasix"@)
    } else if a == "-n"@ || a == "--nodename"@ {
        Some("wasix"@)
    } else {
        None
    }
}

/// The arguments joined by single spaces.
pub open spec fn joined(args: Seq<Seq<char>>) -> Seq<char>
    decreases args.len(),
{
    if args.len() == 0 {
        seq![]
    } else if args.len() == 1 {
        args[0]
    } else {
        joined(args.drop_last()) + " "@ + args.last()
    }
}

/// What `uname` prints for the arguments `args`: the kernel name without arguments, the
/// answer to a single known option, and otherwise an error naming the arguments.
pub open spec fn uname_of(args: Seq<Seq<char>>) -> Result<Seq<char>, Seq<char>> {
    if args.len() == 0 {
        Ok("Linux"@)
    } else if args.len() == 1 && option_output(args[0]) is Some {
        Ok(option_output(args[0])->0)
    } else {
        Err("uname: unsupported arguments: "@ + joined(args))
    }
}

/// The arguments as plain text.
pub open spec fn args_view(args: Seq<String>) -> Seq<Seq<char>> {
    Seq::new(args.len(), |i: int| args[i]@)
}

fn same(a: &str, b: &str) -> (r: bool)
    ensures
        r == (a@ == b@),
{
    let v = text::chars_of(a);
    assert(v@.subrange(0, v@.len() as int) =~= v@);
    text::equals_at(&v, 0, v.len(), b)
}

fn answer(a: &str) -> (r: Option<String>)
    ensures
        match r {
            Some(s) => option_output(a@) == Some(s@),
            None => option_output(a@) is None,
        },
{
    if same(a, "-s") || same(a, "--kernel-name") {
        Some("Linux".to_owned())
    } else if same(a, "-a") || same(a, "--all") {
        Some("Linux wasix 0.0.0 wasix wasm32 GNU/Linux".to_owned())
    } else if same(a, "-m") || same(a, "--machine") {
        Some("wasm32".to_owned())
    } else if same(a, "-o") || same(a, "--operating-system") {
        Some("GNU/Linux".to_owned())
    } else if same(a, "-r") || same(a, "--kernel-release") {
        Some("0.0.0".to_owned())
    } else if same(a, "-v") || same(a, "--kernel-version") {
        Some("wasix".to_owned())
    } else if same(a, "-n") || same(a, "--nodename") {
        Some("wasix".to_owned())
    } else {
        None
    }
}

/// What `uname` prints for the arguments `args` (the program name left out), or the
/// error message for arguments it does not answer.
pub fn uname_output(args: &Vec<String>) -> (r: Result<String, String>)
    ensures
        match r {
            Ok(s) => uname_of(args_view(args@)) == Ok::<Seq<char>, Seq<char>>(s@),
            Err(e) => uname_of(args_view(args@)) == Err::<Seq<char>, Seq<char>>(e@),
        },
{
    let ghost av = args_view(args@);
    if args.len() == 0 {
        return Ok("Linux".to_owned());
    }
    if args.len() == 1 {
        match answer(args[0].as_str()) {
            Some(s) => {
                return Ok(s);
            },
            None => {},
        }
    }
    let mut msg = String::new();
    msg.push_str("uname: unsupported arguments: ");
    let ghost head = msg@;
    let mut i: usize = 0;
    while i < args.len()
        invariant
            i <= args@.len(),
            av == args_view(args@),
            msg@ == head + joined(av.take(i as int)),
        decreases args@.len() - i,
    {
        let ghost prev = msg@;
        if i > 0 {
            msg.push_str(" ");
        }
        msg.push_str(args[i].as_str());
        proof {
            assert(av.take(i + 1).drop_last() =~= av.take(i as int));
            if i == 0 {
                assert(av.take(1) =~= seq![av[0]]);
            }
            assert(msg@ =~= head + joined(av.take(i + 1)));
        }
        i = i + 1;
    }
    assert(av.take(i as int) =~= av);
    Err(msg)
}

/// The short options that are answered.
pub open spec fn short_options() -> Seq<Seq<char>> {
    seq!["-s"@, "-a"@, "-m"@, "-o"@, "-r"@, "-v"@, "-n"@]
}

/// The long options that are answered, each at the place of the short option it
/// spells out.
pub open spec fn long_options() -> Seq<Seq<char>> {
    seq![
        "--kernel-name"@,
        "--all"@,
        "--machine"@,
        "--operating-system"@,
        "--kernel-release"@,
        "--kernel-version"@,
        "--nodename"@,
    ]
}

proof fn lemma_options_differ()
    ensures
        forall|i: int, j: int|
            0 <= i < 7 && 0 <= j < 7 && i != j ==> short_options()[i] != short_options()[j]
                && long_options()[i] != long_options()[j],
        forall|i: int, j: int|
            0 <= i < 7 && 0 <= j < 7 ==> short_options()[i] != long_options()[j],
{
    reveal_strlit("-s");
    reveal_strlit("-a");
    reveal_strlit("-m");
    reveal_strlit("-o");
    reveal_strlit("-r");
    reveal_strlit("-v");
    reveal_strlit("-n");
    reveal_strlit("--kernel-name");
    reveal_strlit("--all");
    reveal_strlit("--machine");
    reveal_strlit("--operating-system");
    reveal_strlit("--kernel-release");
    reveal_strlit("--kernel-version");
    reveal_strlit("--nodename");
    let sh = short_options();
    let lo = long_options();
    assert forall|i: int, j: int| 0 <= i < 7 && 0 <= j < 7 && i != j implies sh[i] != sh[j] by {
        assert(sh[i][1] != sh[j][1]);
    }
    assert forall|i: int, j: int| 0 <= i < 7 && 0 <= j < 7 && i != j implies lo[i] != lo[j] by {
        if lo[i].len() == lo[j].len() {
            assert(lo[i][2] != lo[j][2] || lo[i][9] != lo[j][9]);
        }
    }
    assert forall|i: int, j: int| 0 <= i < 7 && 0 <= j < 7 implies sh[i] != lo[j] by {
        assert(sh[i].len() != lo[j].len());
    }
}

/// Law: each long option is answered, and answered as its short form is.
pub proof fn law_long_options_answer_as_short(i: int)
    requires
        0 <= i < 7,
    ensures
        uname_of(seq![long_options()[i]]) == uname_of(seq![short_options()[i]]),
        uname_of(seq![short_options()[i]]) is Ok,
{
    lemma_options_differ();
    let sh = short_options();
    let lo = long_options();
    assert(sh[0] == "-s"@ && lo[0] == "--kernel-name"@);
    assert(sh[1] == "-a"@ && lo[1] == "--all"@);
    assert(sh[2] == "-m"@ && lo[2] == "--machine"@);
    assert(sh[3] == "-o"@ && lo[3] == "--operating-system"@);
    assert(sh[4] == "-r"@ && lo[4] == "--kernel-release"@);
    assert(sh[5] == "-v"@ && lo[5] == "--kernel-version"@);
    assert(sh[6] == "-n"@ && lo[6] == "--nodename"@);
}

/// Law: `-a`, and so `--all`, prints the kernel name, the node name, the kernel release,
/// the kernel version, the machine and the operating system, in that order, each as its
/// own option prints it, separated by single spaces.
pub proof fn law_all_prints_every_field()
    ensures
        uname_of(seq!["-a"@]) == Ok::<Seq<char>, Seq<char>>(
            joined(
                seq![
                    uname_of(seq!["-s"@])->Ok_0,
                    uname_of(seq!["-n"@])->Ok_0,
                    uname_of(seq!["-r"@])->Ok_0,
                    uname_of(seq!["-v"@])->Ok_0,
                    uname_of(seq!["-m"@])->Ok_0,
                    uname_of(seq!["-o"@])->Ok_0,
                ],
            ),
        ),
        uname_of(seq!["--all"@]) == uname_of(seq!["-a"@]),
{
    law_long_options_answer_as_short(1);
    lemma_options_differ();
    let sh = short_options();
    assert(sh[0] == "-s"@ && sh[1] == "-a"@ && sh[2] == "-m"@ && sh[3] == "-o"@);
    assert(sh[4] == "-r"@ && sh[5] == "-v"@ && sh[6] == "-n"@);
    assert(long_options()[1] == "--all"@);
    reveal_strlit("Linux");
    reveal_strlit("wasix");
    reveal_strlit("0.0.0");
    reveal_strlit("wasm32");
    reveal_strlit("GNU/Linux");
    reveal_strlit(" ");
    reveal_strlit("Linux wasix 0.0.0 wasix wasm32 GNU/Linux");
    let parts = seq!["Linux"@, "wasix"@, "0.0.0"@, "wasix"@, "wasm32"@, "GNU/Linux"@];
    reveal_with_fuel(joined, 7);
    assert(parts.drop_last().drop_last().drop_last().drop_last().drop_last() =~= seq![
        "Linux"@,
    ]);
    assert(joined(parts) =~= "Linux wasix 0.0.0 wasix wasm32 GNU/Linux"@);
}

/// Law: two or more arguments, or a single argument that is none of the answered
/// options, are refused with an error that names the arguments as given.
pub proof fn law_unanswered_arguments(args: Seq<Seq<char>>)
    requires
        args.len() >= 2 || (args.len() == 1 && !short_options().contains(args[0])
            && !long_options().contains(args[0])),
    ensures
        uname_of(args) == Err::<Seq<char>, Seq<char>>(
            "uname: unsupported arguments: "@ + joined(args),
        ),
{
    if args.len() == 1 && option_output(args[0]) is Some {
        let sh = short_options();
        let lo = long_options();
        assert(sh[0] == "-s"@ && lo[0] == "--kernel-name"@);
        assert(sh[1] == "-a"@ && lo[1] == "--all"@);
        assert(sh[2] == "-m"@ && lo[2] == "--machine"@);
        assert(sh[3] == "-o"@ && lo[3] == "--operating-system"@);
        assert(sh[4] == "-r"@ && lo[4] == "--kernel-release"@);
        assert(sh[5] == "-v"@ && lo[5] == "--kernel-version"@);
        assert(sh[6] == "-n"@ && lo[6] == "--nodename"@);
    }
}

} // verus!
