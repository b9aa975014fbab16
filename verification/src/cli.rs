//! Command line of the benchmark.
use crate::text::{chars_of, number, parse_number, same_text};
use vstd::prelude::*;

verus! {

/// What the options ask for.
#[derive(Debug, Clone, Copy, PartialEq, Eq, Structural)]
pub struct Options {
    /// Base-two logarithm of the table size.
    pub table_size_log: Option<u64>,
    /// Number of updates.
    pub num_updates: Option<u64>,
    /// Single-process mode.
    pub single: bool,
}

/// What a command line asks for. The numbers are indices of arguments.
#[derive(Debug, Clone, Copy, PartialEq, Eq, Structural)]
pub enum Command {
    Run(Options),
    Help,
    InvalidTableSize(usize),
    InvalidUpdates(usize),
    UnknownOption(usize),
}

/// How a run is carried out.
#[derive(Debug, Clone, Copy, PartialEq, Eq, Structural)]
pub enum Mode {
    Single,
    Multi,
}

/// The options in force before any argument is read.
pub open spec fn no_options() -> Options {
    Options { table_size_log: None, num_updates: None, single: false }
}

/// The number that argument `i` writes.
pub open spec fn argument_number(args: Seq<Seq<char>>, i: nat) -> Option<nat> {
    number(args[i as int], u64::MAX as nat)
}

/// What the arguments from index `i` on ask for, when those before it gave
/// `options`. An option that takes a number is ignored where nothing follows it.
pub open spec fn command_from(args: Seq<Seq<char>>, i: nat, options: Options) -> Command
    decreases args.len() - i,
{
    if i >= args.len() {
        Command::Run(options)
    } else {
        let arg = args[i as int];
        if arg == "-t"@ || arg == "--table-size"@ {
            if i + 1 >= args.len() {
                Command::Run(options)
            } else {
                match argument_number(args, i + 1) {
                    Some(n) => command_from(
                        args,
                        i + 2,
                        Options { table_size_log: Some(n as u64), ..options },
                    ),
                    None => Command::InvalidTableSize((i + 1) as usize),
                }
            }
        } else if arg == "-u"@ || arg == "--updates"@ {
            if i + 1 >= args.len() {
                Command::Run(options)
            } else {
                match argument_number(args, i + 1) {
                    Some(n) => command_from(
                        args,
                        i + 2,
                        Options { num_updates: Some(n as u64), ..options },
                    ),
                    None => Command::InvalidUpdates((i + 1) as usize),
                }
            }
        } else if arg == "--single"@ {
            command_from(args, i + 1, Options { single: true, ..options })
        } else if arg == "-h"@ || arg == "--help"@ {
            Command::Help
        } else {
            Command::UnknownOption(i as usize)
        }
    }
}

/// The texts of the arguments.
pub open spec fn texts(args: Seq<String>) -> Seq<Seq<char>> {
    Seq::new(args.len(), |i: int| args[i]@)
}

fn parse_argument(text: &String) -> (value: Option<u64>)
    ensures
        value is Some <==> number(text@, u64::MAX as nat) is Some,
        value matches Some(v) ==> number(text@, u64::MAX as nat) == Some(v as nat),
{
    let chars: Vec<char> = chars_of(text.as_str());
    assert(chars@.subrange(0, chars@.len() as int) =~= text@);
    parse_number(chars.as_slice(), 0, chars.len(), u64::MAX)
}

/// Read the command line. The first argument is the name of the program.
pub fn parse_args(args: &Vec<String>) -> (command: Command)
    ensures
        command == command_from(texts(args@), 1, no_options()),
        command == command_from(
            Seq::new(args@.len(), |i: int| args@[i]@),
            1,
            Options { table_size_log: None, num_updates: None, single: false },
        ),
{
    let mut options = Options { table_size_log: None, num_updates: None, single: false };
    let len: usize = args.len();
    let mut i: usize = 1;
    while i < len
        invariant
            len == args@.len(),
            1 <= i,
            command_from(texts(args@), i as nat, options) == command_from(
                texts(args@),
                1,
                no_options(),
            ),
        decreases len - i,
    {
        let arg: &str = args[i].as_str();
        assert(texts(args@)[i as int] == arg@);
        if same_text(arg, "-t") || same_text(arg, "--table-size") {
            i = i + 1;
            if i >= len {
                return Command::Run(options);
            }
            match parse_argument(&args[i]) {
                Some(n) => {
                    options.table_size_log = Some(n);
                },
                None => {
                    return Command::InvalidTableSize(i);
                },
            }
        } else if same_text(arg, "-u") || same_text(arg, "--updates") {
            i = i + 1;
            if i >= len {
                return Command::Run(options);
            }
            match parse_argument(&args[i]) {
                Some(n) => {
                    options.num_updates = Some(n);
                },
                None => {
                    return Command::InvalidUpdates(i);
                },
            }
        } else if same_text(arg, "--single") {
            options.single = true;
        } else if same_text(arg, "-h") || same_text(arg, "--help") {
            return Command::Help;
        } else {
            return Command::UnknownOption(i);
        }
        i = i + 1;
    }
    Command::Run(options)
}

/// Every option sets its own field and leaves the others as they were: what the
/// arguments from index `i` on ask for is laid over what was asked before, field
/// by field.
pub proof fn lemma_options_accumulate(args: Seq<Seq<char>>, i: nat, options: Options)
    ensures
        match command_from(args, i, no_options()) {
            Command::Run(later) => command_from(args, i, options) == Command::Run(
                Options {
                    table_size_log: if later.table_size_log is Some {
                        later.table_size_log
                    } else {
                        options.table_size_log
                    },
                    num_updates: if later.num_updates is Some {
                        later.num_updates
                    } else {
                        options.num_updates
                    },
                    single: options.single || later.single,
                },
            ),
            other => command_from(args, i, options) == other,
        },
    decreases args.len() - i,
{
    if i < args.len() {
        let arg = args[i as int];
        if arg == "-t"@ || arg == "--table-size"@ {
            if i + 1 < args.len() {
                if let Some(n) = argument_number(args, i + 1) {
                    let t = Some(n as u64);
                    lemma_options_accumulate(args, i + 2, Options { table_size_log: t, ..options });
                    lemma_options_accumulate(
                        args,
                        i + 2,
                        Options { table_size_log: t, ..no_options() },
                    );
                }
            }
        } else if arg == "-u"@ || arg == "--updates"@ {
            if i + 1 < args.len() {
                if let Some(n) = argument_number(args, i + 1) {
                    let u = Some(n as u64);
                    lemma_options_accumulate(args, i + 2, Options { num_updates: u, ..options });
                    lemma_options_accumulate(
                        args,
                        i + 2,
                        Options { num_updates: u, ..no_options() },
                    );
                }
            }
        } else if arg == "--single"@ {
            lemma_options_accumulate(args, i + 1, Options { single: true, ..options });
            lemma_options_accumulate(args, i + 1, Options { single: true, ..no_options() });
        }
    }
}

/// The arguments of a line whose last one does not wait for a number.
pub open spec fn complete(line: Seq<Seq<char>>) -> bool {
    line.len() == 1 || (line.len() > 1 && line.last() != "-t"@ && line.last() != "--table-size"@
        && line.last() != "-u"@ && line.last() != "--updates"@)
}

proof fn lemma_front_read(
    front: Seq<Seq<char>>,
    back: Seq<Seq<char>>,
    i: nat,
    options: Options,
    read: Options,
)
    requires
        1 <= i <= front.len(),
        complete(front),
        command_from(front, i, options) == Command::Run(read),
    ensures
        command_from(front + back, i, options) == command_from(front + back, front.len(), read),
    decreases front.len() - i,
{
    let line = front + back;
    if i < front.len() {
        let arg = front[i as int];
        assert(line[i as int] == arg);
        if arg == "-t"@ || arg == "--table-size"@ {
            assert(i + 1 < front.len());
            assert(line[i as int + 1] == front[i as int + 1]);
            let n = argument_number(front, i + 1)->0;
            let t = Some(n as u64);
            lemma_front_read(front, back, i + 2, Options { table_size_log: t, ..options }, read);
        } else if arg == "-u"@ || arg == "--updates"@ {
            assert(i + 1 < front.len());
            assert(line[i as int + 1] == front[i as int + 1]);
            let n = argument_number(front, i + 1)->0;
            let u = Some(n as u64);
            lemma_front_read(front, back, i + 2, Options { num_updates: u, ..options }, read);
        } else {
            lemma_front_read(front, back, i + 1, Options { single: true, ..options }, read);
        }
    }
}

proof fn lemma_back_read(
    front: Seq<Seq<char>>,
    other: Seq<Seq<char>>,
    back: Seq<Seq<char>>,
    i: nat,
    options: Options,
)
    requires
        i <= back.len(),
        front.len() + back.len() <= usize::MAX,
        1 <= other.len() <= front.len(),
    ensures
        command_from(front + back, front.len() + i, options) == (match command_from(
            other + back,
            other.len() + i,
            options,
        ) {
            Command::InvalidTableSize(k) => Command::InvalidTableSize(
                (k + front.len() - other.len()) as usize,
            ),
            Command::InvalidUpdates(k) => Command::InvalidUpdates(
                (k + front.len() - other.len()) as usize,
            ),
            Command::UnknownOption(k) => Command::UnknownOption(
                (k + front.len() - other.len()) as usize,
            ),
            command => command,
        }),
    decreases back.len() - i,
{
    let (a, b) = (front + back, other + back);
    let (m, n) = (front.len() + i, other.len() + i);
    if i < back.len() {
        let arg = back[i as int];
        assert(a[m as int] == arg && b[n as int] == arg);
        if i + 1 < back.len() {
            let next = back[i as int + 1];
            assert(a[m as int + 1] == next && b[n as int + 1] == next);
        }
        if arg == "-t"@ || arg == "--table-size"@ {
            if i + 1 < back.len() {
                if let Some(v) = argument_number(a, m + 1) {
                    let t = Some(v as u64);
                    lemma_back_read(
                        front,
                        other,
                        back,
                        i + 2,
                        Options { table_size_log: t, ..options },
                    );
                }
            }
        } else if arg == "-u"@ || arg == "--updates"@ {
            if i + 1 < back.len() {
                if let Some(v) = argument_number(a, m + 1) {
                    let u = Some(v as u64);
                    lemma_back_read(
                        front,
                        other,
                        back,
                        i + 2,
                        Options { num_updates: u, ..options },
                    );
                }
            }
        } else if arg == "--single"@ {
            lemma_back_read(front, other, back, i + 1, Options { single: true, ..options });
        }
    }
}

/// Arguments added to an accepted line are read as they are read alone. The
/// fields that they set take the place of earlier ones, and the rest stays. What
/// they do wrong is found at its place in the longer line.
pub proof fn lemma_lines_join(line: Seq<Seq<char>>, more: Seq<Seq<char>>, read: Options)
    requires
        line.len() >= 1,
        line.len() + more.len() <= usize::MAX,
        complete(line),
        command_from(line, 1, no_options()) == Command::Run(read),
    ensures
        command_from(line + more, 1, no_options()) == (match command_from(
            seq![line[0]] + more,
            1,
            no_options(),
        ) {
            Command::Run(later) => Command::Run(
                Options {
                    table_size_log: if later.table_size_log is Some {
                        later.table_size_log
                    } else {
                        read.table_size_log
                    },
                    num_updates: if later.num_updates is Some {
                        later.num_updates
                    } else {
                        read.num_updates
                    },
                    single: read.single || later.single,
                },
            ),
            Command::Help => Command::Help,
            Command::InvalidTableSize(k) => Command::InvalidTableSize(
                (k + line.len() - 1) as usize,
            ),
            Command::InvalidUpdates(k) => Command::InvalidUpdates((k + line.len() - 1) as usize),
            Command::UnknownOption(k) => Command::UnknownOption((k + line.len() - 1) as usize),
        }),
{
    lemma_front_read(line, more, 1, no_options(), read);
    lemma_back_read(line, seq![line[0]], more, 0, read);
    lemma_options_accumulate(seq![line[0]] + more, 1, read);
}

/// What lines of one option ask for. `name` is the name of the program.
pub proof fn lemma_one_option(name: Seq<char>, arg: Seq<char>, text: Seq<char>, rest: Seq<Seq<char>>)
    ensures
        command_from(seq![name], 1, no_options()) == Command::Run(
            Options { table_size_log: None, num_updates: None, single: false },
        ),
        arg == "--single"@ ==> command_from(seq![name, arg], 1, no_options()) == Command::Run(
            Options { table_size_log: None, num_updates: None, single: true },
        ),
        arg == "-t"@ || arg == "--table-size"@ ==> command_from(
            seq![name, arg, text],
            1,
            no_options(),
        ) == (match number(text, 0xffff_ffff_ffff_ffff) {
            Some(n) => Command::Run(
                Options { table_size_log: Some(n as u64), num_updates: None, single: false },
            ),
            None => Command::InvalidTableSize(2),
        }),
        arg == "-u"@ || arg == "--updates"@ ==> command_from(
            seq![name, arg, text],
            1,
            no_options(),
        ) == (match number(text, 0xffff_ffff_ffff_ffff) {
            Some(n) => Command::Run(
                Options { table_size_log: None, num_updates: Some(n as u64), single: false },
            ),
            None => Command::InvalidUpdates(2),
        }),
        arg == "-t"@ || arg == "--table-size"@ || arg == "-u"@ || arg == "--updates"@
            ==> command_from(seq![name, arg], 1, no_options()) == Command::Run(
            Options { table_size_log: None, num_updates: None, single: false },
        ),
        arg == "-h"@ || arg == "--help"@ ==> command_from(
            seq![name, arg] + rest,
            1,
            no_options(),
        ) == Command::Help,
        arg != "--single"@ && arg != "-t"@ && arg != "--table-size"@ && arg != "-u"@ && arg
            != "--updates"@ && arg != "-h"@ && arg != "--help"@ ==> command_from(
            seq![name, arg] + rest,
            1,
            no_options(),
        ) == Command::UnknownOption(1),
{
    reveal_with_fuel(command_from, 3);
    lemma_options_differ();
    assert((seq![name, arg] + rest)[1] == arg);
}

proof fn lemma_options_differ()
    ensures
        "-t"@ != "-u"@,
        "-t"@ != "--updates"@,
        "--table-size"@ != "-u"@,
        "--table-size"@ != "--updates"@,
        "--single"@ != "-t"@,
        "--single"@ != "--table-size"@,
        "--single"@ != "-u"@,
        "--single"@ != "--updates"@,
        "-h"@ != "-t"@,
        "-h"@ != "--table-size"@,
        "-h"@ != "-u"@,
        "-h"@ != "--updates"@,
        "-h"@ != "--single"@,
        "--help"@ != "-t"@,
        "--help"@ != "--table-size"@,
        "--help"@ != "-u"@,
        "--help"@ != "--updates"@,
        "--help"@ != "--single"@,
{
    reveal_strlit("-t");
    reveal_strlit("--table-size");
    reveal_strlit("-u");
    reveal_strlit("--updates");
    reveal_strlit("--single");
    reveal_strlit("-h");
    reveal_strlit("--help");
    assert("-t"@[1] == 't' && "-u"@[1] == 'u' && "-h"@[1] == 'h');
    assert("--table-size"@.len() == 12 && "--updates"@.len() == 9);
    assert("--single"@.len() == 8 && "--help"@.len() == 6);
}

/// An accepted line asks for the same wherever `--single` stands between its
/// options: for what it asks without it, and for a single process.
pub proof fn lemma_single_stands_anywhere(line: Seq<Seq<char>>, more: Seq<Seq<char>>, read: Options)
    requires
        line.len() >= 1,
        line.len() + more.len() + 1 <= usize::MAX,
        complete(line),
        command_from(line, 1, no_options()) is Run,
        command_from(line + more, 1, no_options()) == Command::Run(read),
    ensures
        command_from(line.push("--single"@) + more, 1, no_options()) == Command::Run(
            Options {
                table_size_log: read.table_size_log,
                num_updates: read.num_updates,
                single: true,
            },
        ),
        command_from(
            seq![line[0], "--single"@] + line.skip(1) + more,
            1,
            no_options(),
        ) == Command::Run(
            Options {
                table_size_log: read.table_size_log,
                num_updates: read.num_updates,
                single: true,
            },
        ),
{
    let single = "--single"@;
    let first = command_from(line, 1, no_options())->Run_0;
    let none = Seq::<Seq<char>>::empty();
    lemma_options_differ();
    lemma_one_option(line[0], single, single, none);
    lemma_lines_join(line, more, first);
    assert(seq![line[0]] + seq![single] =~= seq![line[0], single]);
    assert(line + seq![single] =~= line.push(single));
    lemma_lines_join(line, seq![single], first);
    let with = Options { single: true, ..first };
    assert(line.push(single)[0] == line[0]);
    lemma_lines_join(line.push(single), more, with);
    let short = seq![line[0], single];
    let rest = line.skip(1) + more;
    assert(seq![short[0]] + rest =~= line + more);
    assert(short + line.skip(1) + more =~= short + rest);
    lemma_lines_join(short, rest, Options { single: true, ..no_options() });
}

/// Several processes run together only where a process manager started this
/// one and a single process was not asked for.
pub fn choose_mode(single: bool, managed: bool) -> (mode: Mode)
    ensures
        mode == (if !single && managed {
            Mode::Multi
        } else {
            Mode::Single
        }),
{
    if single {
        Mode::Single
    } else if managed {
        Mode::Multi
    } else {
        Mode::Single
    }
}

} // verus!
