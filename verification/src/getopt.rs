use crate::filter::{parse_filter, Filter};
use vstd::prelude::*;
use vstd::string::StringExecFns;

verus! {

/// The input file that is read where the command line names none.
pub const DEFAULT_POSITIONAL: &'static str = "rib.mrt";

/// What the command line asks for.
#[derive(Debug, Clone, PartialEq, Eq)]
pub struct Getopt {
    /// `-v`: show what is loaded.
    pub verbose: bool,
    /// `-j`: Juniper-style output.
    pub juniper_output: bool,
    /// `-t`: one line per path, fields separated by `|`.
    pub terse_output: bool,
    /// `-i`: take queries after loading.
    pub interactive: bool,
    /// The filters of the `-f` options, in their order.
    pub filter: Vec<Filter>,
    /// The other arguments, in their order: the input files.
    pub args: Vec<String>,
}

/// The mathematical value of a `Getopt`.
pub struct GetoptView {
    pub verbose: bool,
    pub juniper_output: bool,
    pub terse_output: bool,
    pub interactive: bool,
    pub filter: Seq<Filter>,
    pub args: Seq<Seq<char>>,
}

impl DeepView for Getopt {
    type V = GetoptView;

    open spec fn deep_view(&self) -> GetoptView {
        GetoptView {
            verbose: self.verbose,
            juniper_output: self.juniper_output,
            terse_output: self.terse_output,
            interactive: self.interactive,
            filter: self.filter@,
            args: self.args.deep_view(),
        }
    }
}

/// Why a command line gives no `Getopt`.
#[derive(Debug, Clone, Copy, PartialEq, Eq, Structural)]
pub enum GetoptError {
    /// `-h` or `-?` asks for the usage text.
    Usage,
    /// `-f` is the last argument.
    MissingFilter,
    /// The argument behind `-f` is no filter.
    BadFilter,
}

/// No option set, no filter, no file.
pub open spec fn no_options() -> GetoptView {
    GetoptView {
        verbose: false,
        juniper_output: false,
        terse_output: false,
        interactive: false,
        filter: Seq::empty(),
        args: Seq::empty(),
    }
}

/// What the arguments add to what was found before them. Each of `-v`,
/// `-j`, `-t` and `-i` sets its switch; `-f` takes the next argument as a
/// filter; `-h` and `-?` end the scan; any other argument is a file.
pub open spec fn scan(arguments: Seq<Seq<char>>, found: GetoptView) -> Result<
    GetoptView,
    GetoptError,
>
    decreases arguments.len(),
{
    if arguments.len() == 0 {
        Ok(found)
    } else {
        let arg = arguments[0];
        let rest = arguments.skip(1);
        if arg == "-v"@ {
            scan(rest, GetoptView { verbose: true, ..found })
        } else if arg == "-j"@ {
            scan(rest, GetoptView { juniper_output: true, ..found })
        } else if arg == "-t"@ {
            scan(rest, GetoptView { terse_output: true, ..found })
        } else if arg == "-f"@ {
            if rest.len() == 0 {
                Err(GetoptError::MissingFilter)
            } else {
                match parse_filter(rest[0]) {
                    Some(f) => scan(
                        rest.skip(1),
                        GetoptView { filter: found.filter.push(f), ..found },
                    ),
                    None => Err(GetoptError::BadFilter),
                }
            }
        } else if arg == "-i"@ {
            scan(rest, GetoptView { interactive: true, ..found })
        } else if arg == "-h"@ || arg == "-?"@ {
            Err(GetoptError::Usage)
        } else {
            scan(rest, GetoptView { args: found.args.push(arg), ..found })
        }
    }
}

/// What a command line asks for. Its first argument, the name of the
/// program, is passed over; where no file is named, the default file is
/// read.
pub open spec fn parse_command_line(argv: Seq<Seq<char>>) -> Result<GetoptView, GetoptError> {
    let arguments = if argv.len() > 0 {
        argv.skip(1)
    } else {
        argv
    };
    match scan(arguments, no_options()) {
        Ok(found) => if found.args.len() == 0 {
            Ok(GetoptView { args: seq![DEFAULT_POSITIONAL@], ..found })
        } else {
            Ok(found)
        },
        Err(e) => Err(e),
    }
}

impl Default for Getopt {
    fn default() -> (g: Getopt)
        ensures
            g.deep_view() == no_options(),
    {
        let g = Getopt {
            verbose: false,
            juniper_output: false,
            terse_output: false,
            interactive: false,
            filter: Vec::new(),
            args: Vec::new(),
        };
        assert(g.args.deep_view() =~= Seq::empty());
        g
    }
}

/// Whether `arg` is the option `name`.
fn is_option(arg: &String, name: &str) -> (b: bool)
    ensures
        b == (arg@ == name@),
{
    *arg == String::from_str(name)
}

/// Reads the command line: the name of the program, then options and input
/// files in any order.
#[verifier::loop_isolation(false)]
pub fn getopt(argv: &Vec<String>) -> (r: Result<Getopt, GetoptError>)
    ensures
        match r {
            Ok(g) => parse_command_line(argv.deep_view()) == Ok::<_, GetoptError>(g.deep_view()),
            Err(e) => parse_command_line(argv.deep_view()) == Err::<GetoptView, _>(e),
        },
{
    let mut found = Getopt::default();
    let ghost all = argv.deep_view();
    let ghost arguments = if all.len() > 0 {
        all.skip(1)
    } else {
        all
    };
    let mut i: usize = if argv.len() > 0 {
        1
    } else {
        0
    };
    assert(arguments =~= all.skip(i as int));
    while i < argv.len()
        invariant
            i <= argv.len(),
            all == argv.deep_view(),
            scan(arguments, no_options()) == scan(all.skip(i as int), found.deep_view()),
        decreases argv.len() - i,
    {
        let ghost before = found.deep_view();
        let ghost rest = all.skip(i as int).skip(1);
        assert(all.skip(i as int)[0] == argv[i as int]@);
        assert(rest =~= all.skip(i + 1));
        let arg = &argv[i];
        if is_option(arg, "-v") {
            found.verbose = true;
        } else if is_option(arg, "-j") {
            found.juniper_output = true;
        } else if is_option(arg, "-t") {
            found.terse_output = true;
        } else if is_option(arg, "-f") {
            if i + 1 >= argv.len() {
                return Err(GetoptError::MissingFilter);
            }
            assert(rest[0] == argv[i + 1]@);
            assert(rest.skip(1) =~= all.skip(i + 2));
            match Filter::from_text(argv[i + 1].as_str()) {
                Ok(f) => {
                    found.filter.push(f);
                },
                Err(_) => {
                    return Err(GetoptError::BadFilter);
                },
            }
            i = i + 1;
        } else if is_option(arg, "-i") {
            found.interactive = true;
        } else if is_option(arg, "-h") || is_option(arg, "-?") {
            return Err(GetoptError::Usage);
        } else {
            found.args.push(arg.clone());
            assert(found.args.deep_view() =~= before.args.push(arg@));
        }
        i = i + 1;
    }
    assert(all.skip(i as int) =~= Seq::empty());
    if found.args.len() == 0 {
        found.args.push(String::from_str(DEFAULT_POSITIONAL));
        assert(found.args.deep_view() =~= seq![DEFAULT_POSITIONAL@]);
    }
    Ok(found)
}

} // verus!
