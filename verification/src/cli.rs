//! Argument parser. Pure: consumes the argv tail as byte strings and returns
//! the parsed settings or a usage message.

use vstd::prelude::*;
use vstd::string::{StringExecFns, StringSliceAdditionalSpecFns};

use crate::bytes::{bytes_eq, has_prefix, slice_to_vec, starts_with};
use crate::walk::{Boundary, KindFilter, Query};

verus! {

/// The version of this program.
pub const VERSION: &'static str = "0.1.0";

/// The text printed for `-h`/`--help`.
pub const HELP: &'static str = "\
lup — walk up the directory hierarchy looking for a path

USAGE:
    lup [OPTIONS] <QUERY>
    lup --completions <SHELL>
    lup -h | --help | -V | --version

ARGUMENTS:
    <QUERY>           Literal path to look for at each ancestor (e.g. .env, .config/settings.json)

OPTIONS:
    -a, --all         Print every hit, closest-first
    -e, --echo        Print file contents instead of paths
    -g, --git         Stop at git root; error if not in a git repo
    -r, --root        Walk all the way to filesystem root
    -f, --files       Only match regular files
    -d, --dirs        Only match directories
    -L, --follow      Follow symlinks (default)
    -P, --no-follow   Don't follow symlinks
        --relative    Print paths relative to PWD instead of absolute
    -0, --null        Terminate each output record with NUL instead of newline
        --completions <SHELL>
                      Print completion script for bash, zsh, or fish
    -h, --help        Print help and exit
    -V, --version     Print version and exit

EXIT CODES:
    0  match(es) found
    1  no match within boundary
    2  usage error
    3  -g specified but not in a git repository
    4  I/O error during -e read

EXAMPLES:
    lup .git
    lup .config/settings.json
    lup -g .env
    lup -a .env
    source $(lup .env)
    eval $(lup -e .env)
";

/// The settings given on the command line.
#[derive(Debug, PartialEq, Eq)]
pub struct ParsedArgs {
    pub query: Option<Vec<u8>>,
    pub all: bool,
    pub echo: bool,
    pub null_terminate: bool,
    pub relative: bool,
    pub git: bool,
    pub root: bool,
    pub files_only: bool,
    pub dirs_only: bool,
    pub follow_explicit: bool,
    pub no_follow_explicit: bool,
    pub help: bool,
    pub version: bool,
    pub completions_shell: Option<Vec<u8>>,
}

/// The settings of a [`ParsedArgs`], with byte strings as sequences.
pub struct ArgsView {
    pub query: Option<Seq<u8>>,
    pub all: bool,
    pub echo: bool,
    pub null_terminate: bool,
    pub relative: bool,
    pub git: bool,
    pub root: bool,
    pub files_only: bool,
    pub dirs_only: bool,
    pub follow_explicit: bool,
    pub no_follow_explicit: bool,
    pub help: bool,
    pub version: bool,
    pub completions_shell: Option<Seq<u8>>,
}

/// The bytes of an optional vector.
pub open spec fn opt_vec_view(o: Option<Vec<u8>>) -> Option<Seq<u8>> {
    match o {
        Some(v) => Some(v@),
        None => None,
    }
}

impl View for ParsedArgs {
    type V = ArgsView;

    open spec fn view(&self) -> ArgsView {
        ArgsView {
            query: opt_vec_view(self.query),
            all: self.all,
            echo: self.echo,
            null_terminate: self.null_terminate,
            relative: self.relative,
            git: self.git,
            root: self.root,
            files_only: self.files_only,
            dirs_only: self.dirs_only,
            follow_explicit: self.follow_explicit,
            no_follow_explicit: self.no_follow_explicit,
            help: self.help,
            version: self.version,
            completions_shell: opt_vec_view(self.completions_shell),
        }
    }
}

/// No flag set, no query, no shell.
pub open spec fn default_args() -> ArgsView {
    ArgsView {
        query: None,
        all: false,
        echo: false,
        null_terminate: false,
        relative: false,
        git: false,
        root: false,
        files_only: false,
        dirs_only: false,
        follow_explicit: false,
        no_follow_explicit: false,
        help: false,
        version: false,
        completions_shell: None,
    }
}

impl Default for ParsedArgs {
    fn default() -> (r: Self)
        ensures
            r@ == default_args(),
    {
        ParsedArgs {
            query: None,
            all: false,
            echo: false,
            null_terminate: false,
            relative: false,
            git: false,
            root: false,
            files_only: false,
            dirs_only: false,
            follow_explicit: false,
            no_follow_explicit: false,
            help: false,
            version: false,
            completions_shell: None,
        }
    }
}

impl ParsedArgs {
    /// Effective follow-symlinks setting after applying defaults.
    /// Default is follow=true; -P forces follow=false.
    pub fn effective_follow(&self) -> (r: bool)
        ensures
            r == !self.no_follow_explicit,
    {
        !self.no_follow_explicit
    }

    /// The kind filter that `-f`/`-d` select: files only, directories only,
    /// or none.
    pub fn kind_filter(&self) -> (r: Option<KindFilter>)
        ensures
            r == (if self.files_only && !self.dirs_only {
                Some(KindFilter::Files)
            } else if !self.files_only && self.dirs_only {
                Some(KindFilter::Dirs)
            } else {
                None
            }),
    {
        if self.files_only && !self.dirs_only {
            Some(KindFilter::Files)
        } else if !self.files_only && self.dirs_only {
            Some(KindFilter::Dirs)
        } else {
            None
        }
    }

    /// The boundary that `-g`/`-r` select; HOME-or-root by default.
    pub fn boundary(&self) -> (r: Boundary)
        ensures
            r == (if self.git {
                Boundary::Git
            } else if self.root {
                Boundary::Root
            } else {
                Boundary::Home
            }),
    {
        if self.git {
            Boundary::Git
        } else if self.root {
            Boundary::Root
        } else {
            Boundary::Home
        }
    }

    /// The query these settings describe; `None` without a query argument.
    pub fn to_query<'a>(&'a self) -> (r: Option<Query<'a>>)
        ensures
            self.query is None ==> r is None,
            self.query matches Some(p) ==> r matches Some(q) && {
                &&& q.path@ == p@
                &&& q.all == self.all
                &&& q.echo == self.echo
                &&& q.kind_filter == (if self.files_only && !self.dirs_only {
                    Some(KindFilter::Files)
                } else if !self.files_only && self.dirs_only {
                    Some(KindFilter::Dirs)
                } else {
                    None
                })
                &&& q.follow == !self.no_follow_explicit
                &&& q.null_terminate == self.null_terminate
                &&& q.relative == self.relative
            },
    {
        match &self.query {
            Some(p) => Some(Query {
                path: p.as_slice(),
                all: self.all,
                echo: self.echo,
                kind_filter: self.kind_filter(),
                follow: self.effective_follow(),
                null_terminate: self.null_terminate,
                relative: self.relative,
            }),
            None => None,
        }
    }
}

/// The message for a settings that `validate` refuses, `None` when it accepts them.
pub open spec fn validate_spec(a: ArgsView) -> Option<Seq<char>> {
    let short_circuit = a.help || a.version || a.completions_shell is Some;
    if !short_circuit && a.query is None {
        Some("missing positional query argument"@)
    } else if a.git && a.root {
        Some("flags -g/--git and -r/--root are mutually exclusive"@)
    } else if a.files_only && a.dirs_only {
        Some("flags -f/--files and -d/--dirs are mutually exclusive"@)
    } else if a.follow_explicit && a.no_follow_explicit {
        Some("flags -L/--follow and -P/--no-follow are mutually exclusive"@)
    } else {
        None
    }
}

/// Checks the settings: a query is needed unless help, version or a
/// completion script was asked for; `-g`/`-r`, `-f`/`-d` and `-L`/`-P` are
/// pairwise exclusive. The first rule broken, in that order, gives the message.
pub fn validate(a: &ParsedArgs) -> (r: Result<(), String>)
    ensures
        r is Ok <==> validate_spec(a@) is None,
        r matches Err(m) ==> validate_spec(a@) == Some(m@),
        r is Ok <==> {
            &&& a@.help || a@.version || a@.completions_shell is Some || a@.query is Some
            &&& !(a@.git && a@.root)
            &&& !(a@.files_only && a@.dirs_only)
            &&& !(a@.follow_explicit && a@.no_follow_explicit)
        },
{
    let short_circuit = a.help || a.version || a.completions_shell.is_some();
    if !short_circuit && a.query.is_none() {
        return Err(String::from_str("missing positional query argument"));
    }
    if a.git && a.root {
        return Err(String::from_str("flags -g/--git and -r/--root are mutually exclusive"));
    }
    if a.files_only && a.dirs_only {
        return Err(String::from_str("flags -f/--files and -d/--dirs are mutually exclusive"));
    }
    if a.follow_explicit && a.no_follow_explicit {
        return Err(String::from_str("flags -L/--follow and -P/--no-follow are mutually exclusive"));
    }
    Ok(())
}

/// The settings after one short flag `c`, `None` when `c` names no flag.
pub open spec fn short_flag(st: ArgsView, c: u8) -> Option<ArgsView> {
    if c == 'a' as u8 {
        Some(ArgsView { all: true, ..st })
    } else if c == 'e' as u8 {
        Some(ArgsView { echo: true, ..st })
    } else if c == 'g' as u8 {
        Some(ArgsView { git: true, ..st })
    } else if c == 'r' as u8 {
        Some(ArgsView { root: true, ..st })
    } else if c == 'f' as u8 {
        Some(ArgsView { files_only: true, ..st })
    } else if c == 'd' as u8 {
        Some(ArgsView { dirs_only: true, ..st })
    } else if c == 'L' as u8 {
        Some(ArgsView { follow_explicit: true, ..st })
    } else if c == 'P' as u8 {
        Some(ArgsView { no_follow_explicit: true, ..st })
    } else if c == '0' as u8 {
        Some(ArgsView { null_terminate: true, ..st })
    } else if c == 'h' as u8 {
        Some(ArgsView { help: true, ..st })
    } else if c == 'V' as u8 {
        Some(ArgsView { version: true, ..st })
    } else {
        None
    }
}

/// The settings after the short flags `flags`, applied left to right up to
/// the first byte that names no flag.
pub open spec fn apply_shorts(st: ArgsView, flags: Seq<u8>) -> ArgsView
    decreases flags.len(),
{
    if flags.len() == 0 {
        st
    } else {
        match short_flag(st, flags[0]) {
            Some(next) => apply_shorts(next, flags.drop_first()),
            None => st,
        }
    }
}

/// The first byte of `flags` that names no short flag.
pub open spec fn first_unknown_short(flags: Seq<u8>) -> Option<u8>
    decreases flags.len(),
{
    if flags.len() == 0 {
        None
    } else if short_flag(default_args(), flags[0]) is None {
        Some(flags[0])
    } else {
        first_unknown_short(flags.drop_first())
    }
}

/// The message for an unknown short flag `c`.
pub open spec fn unknown_short_message(c: u8) -> Seq<char> {
    "unknown short flag: -"@.push(c as char)
}

/// Calls `String::push`, which appends the character `c` to `s`.
#[verifier::external_body]
fn push_char(s: &mut String, c: char)
    ensures
        final(s)@ == old(s)@.push(c),
{
    s.push(c);
}

/// Sets the flag that the short flag `c` names; false when it names none.
fn set_short_flag(a: &mut ParsedArgs, c: u8) -> (known: bool)
    ensures
        known == short_flag(old(a)@, c) is Some,
        known == short_flag(default_args(), c) is Some,
        known ==> final(a)@ == short_flag(old(a)@, c).unwrap(),
        !known ==> final(a)@ == old(a)@,
{
    if c == 'a' as u8 {
        a.all = true;
    } else if c == 'e' as u8 {
        a.echo = true;
    } else if c == 'g' as u8 {
        a.git = true;
    } else if c == 'r' as u8 {
        a.root = true;
    } else if c == 'f' as u8 {
        a.files_only = true;
    } else if c == 'd' as u8 {
        a.dirs_only = true;
    } else if c == 'L' as u8 {
        a.follow_explicit = true;
    } else if c == 'P' as u8 {
        a.no_follow_explicit = true;
    } else if c == '0' as u8 {
        a.null_terminate = true;
    } else if c == 'h' as u8 {
        a.help = true;
    } else if c == 'V' as u8 {
        a.version = true;
    } else {
        return false;
    }
    true
}

/// Applies the stacked short flags of `bytes` (after its leading `-`).
fn parse_short(bytes: &[u8], a: &mut ParsedArgs) -> (r: Result<(), String>)
    requires
        bytes@.len() >= 1,
    ensures
        final(a)@ == apply_shorts(old(a)@, bytes@.drop_first()),
        r is Ok <==> first_unknown_short(bytes@.drop_first()) is None,
        r matches Err(m) ==> first_unknown_short(bytes@.drop_first()) matches Some(c)
            && m@ == unknown_short_message(c),
{
    let ghost flags = bytes@.drop_first();
    let mut j: usize = 1;
    let mut unknown: Option<u8> = None;
    assert(bytes@.subrange(1, bytes@.len() as int) =~= flags);
    while j < bytes.len()
        invariant_except_break
            1 <= j <= bytes@.len(),
            unknown is None,
            apply_shorts(old(a)@, flags) == apply_shorts((*a)@, bytes@.subrange(j as int, bytes@.len() as int)),
            first_unknown_short(flags) == first_unknown_short(bytes@.subrange(j as int, bytes@.len() as int)),
        invariant
            flags == bytes@.drop_first(),
        ensures
            apply_shorts(old(a)@, flags) == (*a)@,
            unknown is None <==> first_unknown_short(flags) is None,
            unknown matches Some(c) ==> first_unknown_short(flags) == Some(c),
        decreases bytes@.len() - j,
    {
        let c = bytes[j];
        let ghost rest = bytes@.subrange(j as int, bytes@.len() as int);
        assert(rest[0] == c);
        assert(rest.drop_first() =~= bytes@.subrange(j + 1, bytes@.len() as int));
        if !set_short_flag(a, c) {
            assert(apply_shorts((*a)@, rest) == (*a)@);
            unknown = Some(c);
            break;
        }
        j = j + 1;
    }
    match unknown {
        Some(c) => {
            let mut m = String::from_str("unknown short flag: -");
            push_char(&mut m, c as char);
            Err(m)
        },
        None => Ok(()),
    }
}

/// The settings after the long flag `f` that takes no value, `None` when
/// `f` names no such flag.
pub open spec fn long_flag(st: ArgsView, f: Seq<u8>) -> Option<ArgsView> {
    if f == "--all".spec_bytes() {
        Some(ArgsView { all: true, ..st })
    } else if f == "--echo".spec_bytes() {
        Some(ArgsView { echo: true, ..st })
    } else if f == "--null".spec_bytes() {
        Some(ArgsView { null_terminate: true, ..st })
    } else if f == "--relative".spec_bytes() {
        Some(ArgsView { relative: true, ..st })
    } else if f == "--git".spec_bytes() {
        Some(ArgsView { git: true, ..st })
    } else if f == "--root".spec_bytes() {
        Some(ArgsView { root: true, ..st })
    } else if f == "--files".spec_bytes() {
        Some(ArgsView { files_only: true, ..st })
    } else if f == "--dirs".spec_bytes() {
        Some(ArgsView { dirs_only: true, ..st })
    } else if f == "--follow".spec_bytes() {
        Some(ArgsView { follow_explicit: true, ..st })
    } else if f == "--no-follow".spec_bytes() {
        Some(ArgsView { no_follow_explicit: true, ..st })
    } else if f == "--help".spec_bytes() {
        Some(ArgsView { help: true, ..st })
    } else if f == "--version".spec_bytes() {
        Some(ArgsView { version: true, ..st })
    } else {
        None
    }
}

/// What `String::from_utf8_lossy` makes of `bytes`: the text they encode,
/// with each invalid sequence replaced by U+FFFD.
pub uninterp spec fn lossy_utf8(bytes: Seq<u8>) -> Seq<char>;

/// Calls `String::from_utf8_lossy` and takes the text it returns as a
/// `String`; the contract only names that text (`lossy_utf8`), it does not
/// describe the decoding.
#[verifier::external_body]
fn bytes_to_string_lossy(bytes: &[u8]) -> (s: String)
    ensures
        s@ == lossy_utf8(bytes@),
{
    String::from_utf8_lossy(bytes).into_owned()
}

/// The message for an unknown long flag.
pub open spec fn unknown_long_message(f: Seq<u8>) -> Seq<char> {
    "unknown flag: "@ + lossy_utf8(f)
}

/// Sets the flag that the long flag `f` (one without a value) names; false
/// when it names none.
fn set_long_flag(a: &mut ParsedArgs, f: &[u8]) -> (known: bool)
    ensures
        known == long_flag(old(a)@, f@) is Some,
        known ==> final(a)@ == long_flag(old(a)@, f@).unwrap(),
        !known ==> final(a)@ == old(a)@,
{
    if bytes_eq(f, "--all".as_bytes()) {
        a.all = true;
    } else if bytes_eq(f, "--echo".as_bytes()) {
        a.echo = true;
    } else if bytes_eq(f, "--null".as_bytes()) {
        a.null_terminate = true;
    } else if bytes_eq(f, "--relative".as_bytes()) {
        a.relative = true;
    } else if bytes_eq(f, "--git".as_bytes()) {
        a.git = true;
    } else if bytes_eq(f, "--root".as_bytes()) {
        a.root = true;
    } else if bytes_eq(f, "--files".as_bytes()) {
        a.files_only = true;
    } else if bytes_eq(f, "--dirs".as_bytes()) {
        a.dirs_only = true;
    } else if bytes_eq(f, "--follow".as_bytes()) {
        a.follow_explicit = true;
    } else if bytes_eq(f, "--no-follow".as_bytes()) {
        a.no_follow_explicit = true;
    } else if bytes_eq(f, "--help".as_bytes()) {
        a.help = true;
    } else if bytes_eq(f, "--version".as_bytes()) {
        a.version = true;
    } else {
        return false;
    }
    true
}

/// Applies the long flag `bytes`; `--completions` takes `next` as its shell.
/// `Ok(true)` when `next` was consumed.
fn parse_long(bytes: &[u8], a: &mut ParsedArgs, next: Option<&[u8]>) -> (r: Result<bool, String>)
    ensures
        bytes@ == "--completions".spec_bytes() ==> match next {
            Some(n) => r == Ok::<bool, String>(true) && final(a)@ == ArgsView {
                completions_shell: Some(n@),
                ..old(a)@
            },
            None => r matches Err(m) && m@ == "--completions requires <SHELL>"@ && final(a)@
                == old(a)@,
        },
        bytes@ != "--completions".spec_bytes() ==> match long_flag(old(a)@, bytes@) {
            Some(st) => r == Ok::<bool, String>(false) && final(a)@ == st,
            None => r matches Err(m) && m@ == unknown_long_message(bytes@) && final(a)@
                == old(a)@,
        },
{
    if bytes_eq(bytes, "--completions".as_bytes()) {
        match next {
            Some(n) => {
                a.completions_shell = Some(slice_to_vec(n));
                Ok(true)
            },
            None => Err(String::from_str("--completions requires <SHELL>")),
        }
    } else if set_long_flag(a, bytes) {
        Ok(false)
    } else {
        let mut m = String::from_str("unknown flag: ");
        let shown = bytes_to_string_lossy(bytes);
        m.append(shown.as_str());
        Err(m)
    }
}

/// The byte strings of `args`.
pub open spec fn args_view(args: Seq<Vec<u8>>) -> Seq<Seq<u8>> {
    args.map_values(|a: Vec<u8>| a@)
}

/// The outcome of parsing `args` from position `i` on, with settings `st`
/// so far and options still recognized when `allow`: `--` ends the options;
/// an argument starting with `--` is a long flag (`--completions` takes the
/// next argument as its shell); `-` followed by more bytes is a stack of
/// short flags; anything else is the query, the last one given winning. The
/// settings are validated at the end.
pub open spec fn parse_from(args: Seq<Seq<u8>>, i: int, st: ArgsView, allow: bool) -> Result<ArgsView, Seq<char>>
    decreases args.len() - i,
{
    if i < 0 || i >= args.len() {
        match validate_spec(st) {
            None => Ok(st),
            Some(m) => Err(m),
        }
    } else {
        let arg = args[i];
        if allow && arg == "--".spec_bytes() {
            parse_from(args, i + 1, st, false)
        } else if allow && has_prefix(arg, "--".spec_bytes()) {
            if arg == "--completions".spec_bytes() {
                if i + 1 < args.len() {
                    parse_from(args, i + 2, ArgsView { completions_shell: Some(args[i + 1]), ..st }, allow)
                } else {
                    Err("--completions requires <SHELL>"@)
                }
            } else {
                match long_flag(st, arg) {
                    Some(next) => parse_from(args, i + 1, next, allow),
                    None => Err(unknown_long_message(arg)),
                }
            }
        } else if allow && has_prefix(arg, "-".spec_bytes()) && arg.len() > 1 {
            match first_unknown_short(arg.drop_first()) {
                Some(c) => Err(unknown_short_message(c)),
                None => parse_from(args, i + 1, apply_shorts(st, arg.drop_first()), allow),
            }
        } else {
            parse_from(args, i + 1, ArgsView { query: Some(arg), ..st }, allow)
        }
    }
}

/// The outcome of parsing the argv tail `args`.
pub open spec fn parse_spec(args: Seq<Seq<u8>>) -> Result<ArgsView, Seq<char>> {
    parse_from(args, 0, default_args(), true)
}

/// Parses the arguments after the program name.
pub fn parse(argv_tail: Vec<Vec<u8>>) -> (r: Result<ParsedArgs, String>)
    ensures
        match parse_spec(args_view(argv_tail@)) {
            Ok(st) => r matches Ok(a) && a@ == st,
            Err(m) => r matches Err(e) && e@ == m,
        },
{
    let ghost args = args_view(argv_tail@);
    let mut a = ParsedArgs::default();
    let mut allow_flags = true;
    let mut i: usize = 0;
    let mut failure: Option<String> = None;
    while i < argv_tail.len()
        invariant_except_break
            i <= argv_tail@.len(),
            failure is None,
            parse_spec(args) == parse_from(args, i as int, a@, allow_flags),
        invariant
            args == args_view(argv_tail@),
        ensures
            failure is None ==> parse_spec(args) == parse_from(args, argv_tail@.len() as int, a@, allow_flags),
            failure matches Some(m) ==> parse_spec(args) == Err::<ArgsView, Seq<char>>(m@),
        decreases argv_tail@.len() - i,
    {
        let bytes = argv_tail[i].as_slice();
        assert(bytes@ == args[i as int]);
        if allow_flags && bytes_eq(bytes, "--".as_bytes()) {
            allow_flags = false;
            i = i + 1;
        } else if allow_flags && starts_with(bytes, "--".as_bytes()) {
            let next = if i + 1 < argv_tail.len() {
                assert(argv_tail[i + 1 as usize]@ == args[i + 1]);
                Some(argv_tail[i + 1].as_slice())
            } else {
                None
            };
            match parse_long(bytes, &mut a, next) {
                Ok(consumed) => {
                    i = if consumed { i + 2 } else { i + 1 };
                },
                Err(m) => {
                    failure = Some(m);
                    break;
                },
            }
        } else if allow_flags && starts_with(bytes, "-".as_bytes()) && bytes.len() > 1 {
            match parse_short(bytes, &mut a) {
                Ok(()) => {
                    i = i + 1;
                },
                Err(m) => {
                    failure = Some(m);
                    break;
                },
            }
        } else {
            a.query = Some(slice_to_vec(bytes));
            i = i + 1;
        }
    }
    match failure {
        Some(m) => Err(m),
        None => match validate(&a) {
            Ok(()) => Ok(a),
            Err(m) => Err(m),
        },
    }
}

/// Parsing from any position yields only settings that pass validation.
proof fn lemma_parse_from_validates(args: Seq<Seq<u8>>, i: int, st: ArgsView, allow: bool)
    ensures
        parse_from(args, i, st, allow) matches Ok(r) ==> validate_spec(r) is None,
    decreases args.len() - i,
{
    if 0 <= i < args.len() {
        let arg = args[i];
        if allow && arg == "--".spec_bytes() {
            lemma_parse_from_validates(args, i + 1, st, false);
        } else if allow && has_prefix(arg, "--".spec_bytes()) {
            if arg == "--completions".spec_bytes() {
                if i + 1 < args.len() {
                    lemma_parse_from_validates(
                        args,
                        i + 2,
                        ArgsView { completions_shell: Some(args[i + 1]), ..st },
                        allow,
                    );
                }
            } else {
                match long_flag(st, arg) {
                    Some(next) => lemma_parse_from_validates(args, i + 1, next, allow),
                    None => {},
                }
            }
        } else if allow && has_prefix(arg, "-".spec_bytes()) && arg.len() > 1 {
            lemma_parse_from_validates(args, i + 1, apply_shorts(st, arg.drop_first()), allow);
        } else {
            lemma_parse_from_validates(args, i + 1, ArgsView { query: Some(arg), ..st }, allow);
        }
    }
}

/// Whatever `parse` accepts obeys the rules that `validate` checks: a query
/// unless help, version or completions were asked for, and no two of
/// `-g`/`-r`, `-f`/`-d`, `-L`/`-P` together.
pub proof fn lemma_parse_validates(args: Seq<Seq<u8>>)
    ensures
        parse_spec(args) matches Ok(st) ==> validate_spec(st) is None,
{
    lemma_parse_from_validates(args, 0, default_args(), true);
}

/// An argument other than `--` and `--completions`, the two that change how
/// the arguments after them are read.
pub open spec fn is_plain_arg(arg: Seq<u8>) -> bool {
    arg != "--".spec_bytes() && arg != "--completions".spec_bytes()
}

/// An argument that `parse` takes as the query while options are recognized.
pub open spec fn is_positional(arg: Seq<u8>) -> bool {
    !has_prefix(arg, "--".spec_bytes()) && !(has_prefix(arg, "-".spec_bytes()) && arg.len() > 1)
}

/// The settings after one plain argument, `None` when it is an unknown flag.
#[verifier::opaque]
pub open spec fn arg_effect(st: ArgsView, arg: Seq<u8>) -> Option<ArgsView> {
    if has_prefix(arg, "--".spec_bytes()) {
        long_flag(st, arg)
    } else if has_prefix(arg, "-".spec_bytes()) && arg.len() > 1 {
        if first_unknown_short(arg.drop_first()) is None {
            Some(apply_shorts(st, arg.drop_first()))
        } else {
            None
        }
    } else {
        Some(ArgsView { query: Some(arg), ..st })
    }
}

/// The settings after the plain arguments `args`, left to right.
pub open spec fn fold_args(args: Seq<Seq<u8>>, st: ArgsView) -> Option<ArgsView>
    decreases args.len(),
{
    if args.len() == 0 {
        Some(st)
    } else {
        match arg_effect(st, args[0]) {
            Some(next) => fold_args(args.drop_first(), next),
            None => None,
        }
    }
}

/// `st` with the flags of `m` added.
#[verifier::opaque]
pub open spec fn or_flags(st: ArgsView, m: ArgsView) -> ArgsView {
    ArgsView {
        query: st.query,
        all: st.all || m.all,
        echo: st.echo || m.echo,
        null_terminate: st.null_terminate || m.null_terminate,
        relative: st.relative || m.relative,
        git: st.git || m.git,
        root: st.root || m.root,
        files_only: st.files_only || m.files_only,
        dirs_only: st.dirs_only || m.dirs_only,
        follow_explicit: st.follow_explicit || m.follow_explicit,
        no_follow_explicit: st.no_follow_explicit || m.no_follow_explicit,
        help: st.help || m.help,
        version: st.version || m.version,
        completions_shell: st.completions_shell,
    }
}

/// A known short flag adds its flag.
#[verifier::spinoff_prover]
proof fn lemma_short_flag_adds(st: ArgsView, c: u8)
    ensures
        short_flag(st, c) is Some == short_flag(default_args(), c) is Some,
        short_flag(st, c) is Some ==> short_flag(st, c) == Some(
            or_flags(st, short_flag(default_args(), c).unwrap()),
        ),
{
    reveal(or_flags);
}

/// Whether a long flag is known does not depend on the settings.
#[verifier::spinoff_prover]
proof fn lemma_long_flag_known(st: ArgsView, f: Seq<u8>)
    ensures
        long_flag(st, f) is Some == long_flag(default_args(), f) is Some,
{
}

/// A known long flag adds its flag.
#[verifier::spinoff_prover]
proof fn lemma_long_flag_adds(st: ArgsView, f: Seq<u8>)
    ensures
        long_flag(st, f) is Some == long_flag(default_args(), f) is Some,
        long_flag(st, f) is Some ==> long_flag(st, f) == Some(
            or_flags(st, long_flag(default_args(), f).unwrap()),
        ),
{
    lemma_long_flag_known(st, f);
    reveal(or_flags);
    if f == "--all".spec_bytes() {
    } else if f == "--echo".spec_bytes() {
    } else if f == "--null".spec_bytes() {
    } else if f == "--relative".spec_bytes() {
    } else if f == "--git".spec_bytes() {
    } else if f == "--root".spec_bytes() {
    } else if f == "--files".spec_bytes() {
    } else if f == "--dirs".spec_bytes() {
    } else if f == "--follow".spec_bytes() {
    } else if f == "--no-follow".spec_bytes() {
    } else if f == "--help".spec_bytes() {
    } else if f == "--version".spec_bytes() {
    }
}

/// A stack of short flags adds its flags.
#[verifier::spinoff_prover]
proof fn lemma_shorts_add(st: ArgsView, bs: Seq<u8>)
    ensures
        apply_shorts(st, bs) == or_flags(st, apply_shorts(default_args(), bs)),
    decreases bs.len(),
{
    reveal(or_flags);
    if bs.len() > 0 {
        lemma_short_flag_adds(st, bs[0]);
        lemma_short_flag_adds(default_args(), bs[0]);
        if short_flag(st, bs[0]) is Some {
            let m0 = short_flag(default_args(), bs[0]).unwrap();
            lemma_shorts_add(or_flags(st, m0), bs.drop_first());
            lemma_shorts_add(m0, bs.drop_first());
        }
    }
}

/// The outcome of a plain argument does not depend on the settings before it.
proof fn lemma_arg_effect_known(st: ArgsView, arg: Seq<u8>)
    ensures
        arg_effect(st, arg) is Some == arg_effect(default_args(), arg) is Some,
        arg_effect(st, arg) is Some && !is_positional(arg) ==> arg_effect(st, arg) == Some(
            or_flags(st, arg_effect(default_args(), arg).unwrap()),
        ),
        is_positional(arg) ==> arg_effect(st, arg) == Some(ArgsView { query: Some(arg), ..st }),
{
    reveal(arg_effect);
    lemma_long_flag_adds(st, arg);
    lemma_shorts_add(st, arg.drop_first());
}

/// Adding flags commutes.
proof fn lemma_or_flags_commute(st: ArgsView, a: ArgsView, b: ArgsView)
    ensures
        or_flags(or_flags(st, a), b) == or_flags(or_flags(st, b), a),
{
    reveal(or_flags);
}

/// Adding flags commutes with setting the query.
proof fn lemma_or_flags_query(st: ArgsView, a: ArgsView, q: Seq<u8>)
    ensures
        or_flags((ArgsView { query: Some(q), ..st }), a) == (ArgsView {
            query: Some(q),
            ..or_flags(st, a)
        }),
{
    reveal(or_flags);
}

/// Two flag arguments commute.
proof fn lemma_flags_commute(st: ArgsView, x: Seq<u8>, y: Seq<u8>)
    requires
        !is_positional(x),
        !is_positional(y),
        arg_effect(st, x) is Some,
        arg_effect(arg_effect(st, x).unwrap(), y) is Some,
    ensures
        arg_effect(st, y) is Some,
        arg_effect(arg_effect(st, y).unwrap(), x) == arg_effect(arg_effect(st, x).unwrap(), y),
{
    let sx = arg_effect(st, x).unwrap();
    lemma_arg_effect_known(st, x);
    lemma_arg_effect_known(st, y);
    lemma_arg_effect_known(sx, y);
    let sy = arg_effect(st, y).unwrap();
    lemma_arg_effect_known(sy, x);
    let mx = arg_effect(default_args(), x).unwrap();
    let my = arg_effect(default_args(), y).unwrap();
    assert(sx == or_flags(st, mx));
    assert(sy == or_flags(st, my));
    lemma_or_flags_commute(st, mx, my);
}

/// A positional argument and a flag commute.
proof fn lemma_query_flag_commute(st: ArgsView, x: Seq<u8>, y: Seq<u8>)
    requires
        is_positional(x),
        !is_positional(y),
        arg_effect(st, y) is Some,
    ensures
        arg_effect(st, x) is Some,
        arg_effect(arg_effect(st, x).unwrap(), y) is Some,
        arg_effect(arg_effect(st, y).unwrap(), x) == arg_effect(arg_effect(st, x).unwrap(), y),
{
    let sx = arg_effect(st, x).unwrap();
    lemma_arg_effect_known(st, x);
    lemma_arg_effect_known(st, y);
    lemma_arg_effect_known(sx, y);
    let sy = arg_effect(st, y).unwrap();
    lemma_arg_effect_known(sy, x);
    let my = arg_effect(default_args(), y).unwrap();
    lemma_or_flags_query(st, my, x);
}

/// Two plain arguments, not both positional, commute.
proof fn lemma_arg_effects_commute(st: ArgsView, x: Seq<u8>, y: Seq<u8>)
    requires
        !(is_positional(x) && is_positional(y)),
        arg_effect(st, x) is Some,
        arg_effect(arg_effect(st, x).unwrap(), y) is Some,
    ensures
        arg_effect(st, y) is Some,
        arg_effect(arg_effect(st, y).unwrap(), x) is Some,
        arg_effect(arg_effect(st, y).unwrap(), x) == arg_effect(arg_effect(st, x).unwrap(), y),
{
    if is_positional(x) {
        lemma_arg_effect_known(st, x);
        lemma_arg_effect_known(arg_effect(st, x).unwrap(), y);
        lemma_arg_effect_known(st, y);
        lemma_query_flag_commute(st, x, y);
    } else if is_positional(y) {
        lemma_arg_effect_known(st, x);
        lemma_query_flag_commute(st, y, x);
    } else {
        lemma_flags_commute(st, x, y);
        lemma_arg_effect_known(arg_effect(st, y).unwrap(), x);
        lemma_arg_effect_known(st, x);
    }
}

/// For plain arguments, parsing is the left-to-right fold of their effects,
/// followed by validation.
proof fn lemma_parse_is_fold(args: Seq<Seq<u8>>, i: int, st: ArgsView)
    requires
        0 <= i <= args.len(),
        forall|j: int| i <= j < args.len() ==> is_plain_arg(#[trigger] args[j]),
    ensures
        fold_args(args.skip(i), st) matches Some(r) ==> parse_from(args, i, st, true) == match validate_spec(r) {
            None => Ok::<ArgsView, Seq<char>>(r),
            Some(m) => Err(m),
        },
        fold_args(args.skip(i), st) is None ==> parse_from(args, i, st, true) is Err,
    decreases args.len() - i,
{
    reveal(arg_effect);
    if i < args.len() {
        let arg = args[i];
        assert(is_plain_arg(args[i]));
        assert(args.skip(i)[0] == arg);
        assert(args.skip(i).drop_first() =~= args.skip(i + 1));
        match arg_effect(st, arg) {
            Some(next) => lemma_parse_is_fold(args, i + 1, next),
            None => {},
        }
    } else {
        assert(args.skip(i) =~= Seq::<Seq<u8>>::empty());
    }
}

/// `args` with the arguments at `i` and `i + 1` exchanged.
pub open spec fn swap_args(args: Seq<Seq<u8>>, i: int) -> Seq<Seq<u8>> {
    args.update(i, args[i + 1]).update(i + 1, args[i])
}

/// Exchanging two neighbouring plain arguments, not both positional, does
/// not change the fold.
proof fn lemma_fold_swap(args: Seq<Seq<u8>>, i: int, st: ArgsView)
    requires
        0 <= i,
        i + 1 < args.len(),
        !(is_positional(args[i]) && is_positional(args[i + 1])),
        fold_args(args, st) is Some,
    ensures
        fold_args(swap_args(args, i), st) == fold_args(args, st),
    decreases i,
{
    let sw = swap_args(args, i);
    if i == 0 {
        let x = args[0];
        let y = args[1];
        assert(arg_effect(st, x) is Some);
        let sx = arg_effect(st, x).unwrap();
        assert(args.drop_first()[0] == y);
        assert(fold_args(args, st) == fold_args(args.drop_first(), sx));
        assert(arg_effect(sx, y) is Some);
        let sxy = arg_effect(sx, y).unwrap();
        assert(args.drop_first().drop_first() =~= args.skip(2));
        assert(fold_args(args.drop_first(), sx) == fold_args(args.skip(2), sxy));
        lemma_arg_effects_commute(st, x, y);
        let sy = arg_effect(st, y).unwrap();
        assert(sw[0] == y && sw[1] == x);
        assert(sw.drop_first()[0] == x);
        assert(sw.drop_first().drop_first() =~= args.skip(2));
        assert(fold_args(sw, st) == fold_args(sw.drop_first(), sy));
        assert(fold_args(sw.drop_first(), sy) == fold_args(args.skip(2), sxy));
    } else {
        assert(arg_effect(st, args[0]) is Some);
        let next = arg_effect(st, args[0]).unwrap();
        assert(fold_args(args, st) == fold_args(args.drop_first(), next));
        assert(sw[0] == args[0]);
        assert(fold_args(sw, st) == fold_args(sw.drop_first(), next));
        assert(sw.drop_first() =~= swap_args(args.drop_first(), i - 1));
        lemma_fold_swap(args.drop_first(), i - 1, next);
    }
}

/// Flags may come in any order and before or after the query: when no
/// argument is `--` or `--completions`, exchanging two neighbouring
/// arguments that are not both positional leaves a successful parse
/// unchanged. (Every reordering is a series of such exchanges.)
pub proof fn lemma_flag_order(args: Seq<Seq<u8>>, i: int)
    requires
        forall|j: int| 0 <= j < args.len() ==> is_plain_arg(#[trigger] args[j]),
        0 <= i,
        i + 1 < args.len(),
        !(is_positional(args[i]) && is_positional(args[i + 1])),
        parse_spec(args) is Ok,
    ensures
        parse_spec(swap_args(args, i)) == parse_spec(args),
{
    let sw = swap_args(args, i);
    assert(args.skip(0) =~= args);
    assert(sw.skip(0) =~= sw);
    lemma_parse_is_fold(args, 0, default_args());
    assert forall|j: int| 0 <= j < sw.len() implies is_plain_arg(#[trigger] sw[j]) by {
        if j == i {
            assert(sw[j] == args[i + 1]);
        } else if j == i + 1 {
            assert(sw[j] == args[i]);
        } else {
            assert(sw[j] == args[j]);
        }
    }
    lemma_parse_is_fold(sw, 0, default_args());
    lemma_fold_swap(args, i, default_args());
}

/// At most one of `args` is positional.
pub open spec fn at_most_one_positional(args: Seq<Seq<u8>>) -> bool {
    forall|i: int, j: int|
        0 <= i < args.len() && 0 <= j < args.len() && is_positional(#[trigger] args[i])
            && is_positional(#[trigger] args[j]) ==> i == j
}

/// Applying one more argument after a fold.
proof fn lemma_fold_push(args: Seq<Seq<u8>>, x: Seq<u8>, st: ArgsView)
    ensures
        fold_args(args.push(x), st) == match fold_args(args, st) {
            Some(r) => arg_effect(r, x),
            None => None,
        },
    decreases args.len(),
{
    if args.len() == 0 {
        assert(args.push(x).drop_first() =~= Seq::<Seq<u8>>::empty());
        assert(args.push(x)[0] == x);
        assert(fold_args(args, st) == Some(st));
        match arg_effect(st, x) {
            Some(n) => {
                assert(fold_args(args.push(x).drop_first(), n) == Some(n));
            },
            None => {},
        }
    } else {
        assert(args.push(x)[0] == args[0]);
        assert(args.push(x).drop_first() =~= args.drop_first().push(x));
        match arg_effect(st, args[0]) {
            Some(next) => lemma_fold_push(args.drop_first(), x, next),
            None => {},
        }
    }
}

/// Moving one argument to the end, past arguments that are not positional
/// when it is, leaves a successful fold unchanged.
proof fn lemma_move_to_end(args: Seq<Seq<u8>>, k: int, st: ArgsView)
    requires
        0 <= k < args.len(),
        at_most_one_positional(args),
        fold_args(args, st) is Some,
    ensures
        fold_args(args.remove(k).push(args[k]), st) == fold_args(args, st),
    decreases args.len() - k,
{
    if k == args.len() - 1 {
        assert(args.remove(k).push(args[k]) =~= args);
    } else {
        let sw = swap_args(args, k);
        assert(!(is_positional(args[k]) && is_positional(args[k + 1])));
        lemma_fold_swap(args, k, st);
        assert(at_most_one_positional(sw)) by {
            assert forall|i: int, j: int|
                0 <= i < sw.len() && 0 <= j < sw.len() && is_positional(#[trigger] sw[i])
                    && is_positional(#[trigger] sw[j]) implies i == j by {
                let oi = if i == k { k + 1 } else if i == k + 1 { k } else { i };
                let oj = if j == k { k + 1 } else if j == k + 1 { k } else { j };
                assert(sw[i] == args[oi]);
                assert(sw[j] == args[oj]);
            }
        }
        lemma_move_to_end(sw, k + 1, st);
        assert(sw[k + 1] == args[k]);
        assert(sw.remove(k + 1) =~= args.remove(k));
    }
}

/// Any reordering of plain arguments, at most one of them positional,
/// leaves a successful fold unchanged.
proof fn lemma_fold_perm(args: Seq<Seq<u8>>, args2: Seq<Seq<u8>>, st: ArgsView)
    requires
        at_most_one_positional(args),
        args2.to_multiset() == args.to_multiset(),
        fold_args(args, st) is Some,
    ensures
        fold_args(args2, st) == fold_args(args, st),
    decreases args.len(),
{
    broadcast use vstd::seq_lib::group_to_multiset_ensures;

    assert(args.to_multiset().len() == args.len());
    assert(args2.to_multiset().len() == args2.len());
    if args.len() == 0 {
        assert(args2.len() == 0);
        assert(args2 =~= args);
    } else {
        assert(args2.len() == args.len());
        let x = args2.last();
        assert(args2.contains(x)) by {
            assert(args2[args2.len() - 1] == x);
        }
        assert(args.to_multiset().count(x) > 0);
        assert(args.contains(x));
        let k = choose|k: int| 0 <= k < args.len() && args[k] == x;
        let rest = args.remove(k);
        lemma_move_to_end(args, k, st);
        lemma_fold_push(rest, x, st);
        assert(fold_args(rest, st) is Some);
        assert(at_most_one_positional(rest)) by {
            assert forall|i: int, j: int|
                0 <= i < rest.len() && 0 <= j < rest.len() && is_positional(#[trigger] rest[i])
                    && is_positional(#[trigger] rest[j]) implies i == j by {
                let oi = if i < k { i } else { i + 1 };
                let oj = if j < k { j } else { j + 1 };
                assert(rest[i] == args[oi]);
                assert(rest[j] == args[oj]);
            }
        }
        let rest2 = args2.drop_last();
        assert(rest2 =~= args2.remove(args2.len() - 1));
        assert(rest2.to_multiset() =~= rest.to_multiset());
        lemma_fold_perm(rest, rest2, st);
        lemma_fold_push(rest2, x, st);
        assert(rest2.push(x) =~= args2);
    }
}

/// Flags may come in any order and before or after the query: when no
/// argument is `--` or `--completions` and at most one is positional, every
/// reordering of the arguments of a successful parse parses the same way.
pub proof fn lemma_flag_permutation(args: Seq<Seq<u8>>, args2: Seq<Seq<u8>>)
    requires
        forall|j: int| 0 <= j < args.len() ==> is_plain_arg(#[trigger] args[j]),
        at_most_one_positional(args),
        args2.to_multiset() == args.to_multiset(),
        parse_spec(args) is Ok,
    ensures
        parse_spec(args2) == parse_spec(args),
{
    broadcast use vstd::seq_lib::group_to_multiset_ensures;

    assert(args.skip(0) =~= args);
    assert(args2.skip(0) =~= args2);
    lemma_parse_is_fold(args, 0, default_args());
    assert forall|j: int| 0 <= j < args2.len() implies is_plain_arg(#[trigger] args2[j]) by {
        assert(args2.contains(args2[j]));
        assert(args.to_multiset().count(args2[j]) > 0);
        assert(args.contains(args2[j]));
        let i = choose|i: int| 0 <= i < args.len() && args[i] == args2[j];
        assert(is_plain_arg(args[i]));
    }
    lemma_parse_is_fold(args2, 0, default_args());
    lemma_fold_perm(args, args2, default_args());
}

/// The bytes of `--`.
proof fn lemma_bytes_dashdash()
    ensures
        "--".spec_bytes() == seq![45u8, 45u8],
{
    reveal_strlit("--");
    vstd::utf8::is_ascii_chars_encode_utf8("--"@);
    assert("--".spec_bytes() =~= seq![45u8, 45u8]);
}

/// The bytes of `-`.
proof fn lemma_bytes_dash()
    ensures
        "-".spec_bytes() == seq![45u8],
{
    reveal_strlit("-");
    vstd::utf8::is_ascii_chars_encode_utf8("-"@);
    assert("-".spec_bytes() =~= seq![45u8]);
}

/// The bytes of `--completions`.
proof fn lemma_bytes_completions()
    ensures
        "--completions".spec_bytes() == seq![45u8, 45u8, 99u8, 111u8, 109u8, 112u8, 108u8, 101u8, 116u8, 105u8, 111u8, 110u8, 115u8],
{
    reveal_strlit("--completions");
    vstd::utf8::is_ascii_chars_encode_utf8("--completions"@);
    assert("--completions".spec_bytes() =~= seq![45u8, 45u8, 99u8, 111u8, 109u8, 112u8, 108u8, 101u8, 116u8, 105u8, 111u8, 110u8, 115u8]);
}

/// The bytes of `--all`.
proof fn lemma_bytes_long_all()
    ensures
        "--all".spec_bytes() == seq![45u8, 45u8, 97u8, 108u8, 108u8],
{
    reveal_strlit("--all");
    vstd::utf8::is_ascii_chars_encode_utf8("--all"@);
    assert("--all".spec_bytes() =~= seq![45u8, 45u8, 97u8, 108u8, 108u8]);
}

/// The bytes of `--echo`.
proof fn lemma_bytes_long_echo()
    ensures
        "--echo".spec_bytes() == seq![45u8, 45u8, 101u8, 99u8, 104u8, 111u8],
{
    reveal_strlit("--echo");
    vstd::utf8::is_ascii_chars_encode_utf8("--echo"@);
    assert("--echo".spec_bytes() =~= seq![45u8, 45u8, 101u8, 99u8, 104u8, 111u8]);
}

/// The bytes of `--null`.
proof fn lemma_bytes_long_null()
    ensures
        "--null".spec_bytes() == seq![45u8, 45u8, 110u8, 117u8, 108u8, 108u8],
{
    reveal_strlit("--null");
    vstd::utf8::is_ascii_chars_encode_utf8("--null"@);
    assert("--null".spec_bytes() =~= seq![45u8, 45u8, 110u8, 117u8, 108u8, 108u8]);
}

/// The bytes of `--relative`.
proof fn lemma_bytes_long_relative()
    ensures
        "--relative".spec_bytes() == seq![45u8, 45u8, 114u8, 101u8, 108u8, 97u8, 116u8, 105u8, 118u8, 101u8],
{
    reveal_strlit("--relative");
    vstd::utf8::is_ascii_chars_encode_utf8("--relative"@);
    assert("--relative".spec_bytes() =~= seq![45u8, 45u8, 114u8, 101u8, 108u8, 97u8, 116u8, 105u8, 118u8, 101u8]);
}

/// The bytes of `--git`.
proof fn lemma_bytes_long_git()
    ensures
        "--git".spec_bytes() == seq![45u8, 45u8, 103u8, 105u8, 116u8],
{
    reveal_strlit("--git");
    vstd::utf8::is_ascii_chars_encode_utf8("--git"@);
    assert("--git".spec_bytes() =~= seq![45u8, 45u8, 103u8, 105u8, 116u8]);
}

/// The bytes of `--root`.
proof fn lemma_bytes_long_root()
    ensures
        "--root".spec_bytes() == seq![45u8, 45u8, 114u8, 111u8, 111u8, 116u8],
{
    reveal_strlit("--root");
    vstd::utf8::is_ascii_chars_encode_utf8("--root"@);
    assert("--root".spec_bytes() =~= seq![45u8, 45u8, 114u8, 111u8, 111u8, 116u8]);
}

/// The bytes of `--files`.
proof fn lemma_bytes_long_files()
    ensures
        "--files".spec_bytes() == seq![45u8, 45u8, 102u8, 105u8, 108u8, 101u8, 115u8],
{
    reveal_strlit("--files");
    vstd::utf8::is_ascii_chars_encode_utf8("--files"@);
    assert("--files".spec_bytes() =~= seq![45u8, 45u8, 102u8, 105u8, 108u8, 101u8, 115u8]);
}

/// The bytes of `--dirs`.
proof fn lemma_bytes_long_dirs()
    ensures
        "--dirs".spec_bytes() == seq![45u8, 45u8, 100u8, 105u8, 114u8, 115u8],
{
    reveal_strlit("--dirs");
    vstd::utf8::is_ascii_chars_encode_utf8("--dirs"@);
    assert("--dirs".spec_bytes() =~= seq![45u8, 45u8, 100u8, 105u8, 114u8, 115u8]);
}

/// The bytes of `--follow`.
proof fn lemma_bytes_long_follow()
    ensures
        "--follow".spec_bytes() == seq![45u8, 45u8, 102u8, 111u8, 108u8, 108u8, 111u8, 119u8],
{
    reveal_strlit("--follow");
    vstd::utf8::is_ascii_chars_encode_utf8("--follow"@);
    assert("--follow".spec_bytes() =~= seq![45u8, 45u8, 102u8, 111u8, 108u8, 108u8, 111u8, 119u8]);
}

/// The bytes of `--no-follow`.
proof fn lemma_bytes_long_no_follow()
    ensures
        "--no-follow".spec_bytes() == seq![45u8, 45u8, 110u8, 111u8, 45u8, 102u8, 111u8, 108u8, 108u8, 111u8, 119u8],
{
    reveal_strlit("--no-follow");
    vstd::utf8::is_ascii_chars_encode_utf8("--no-follow"@);
    assert("--no-follow".spec_bytes() =~= seq![45u8, 45u8, 110u8, 111u8, 45u8, 102u8, 111u8, 108u8, 108u8, 111u8, 119u8]);
}

/// The bytes of `--help`.
proof fn lemma_bytes_long_help()
    ensures
        "--help".spec_bytes() == seq![45u8, 45u8, 104u8, 101u8, 108u8, 112u8],
{
    reveal_strlit("--help");
    vstd::utf8::is_ascii_chars_encode_utf8("--help"@);
    assert("--help".spec_bytes() =~= seq![45u8, 45u8, 104u8, 101u8, 108u8, 112u8]);
}

/// The bytes of `--version`.
proof fn lemma_bytes_long_version()
    ensures
        "--version".spec_bytes() == seq![45u8, 45u8, 118u8, 101u8, 114u8, 115u8, 105u8, 111u8, 110u8],
{
    reveal_strlit("--version");
    vstd::utf8::is_ascii_chars_encode_utf8("--version"@);
    assert("--version".spec_bytes() =~= seq![45u8, 45u8, 118u8, 101u8, 114u8, 115u8, 105u8, 111u8, 110u8]);
}

/// The bytes of `-a`.
proof fn lemma_bytes_short_a()
    ensures
        "-a".spec_bytes() == seq![45u8, 97u8],
{
    reveal_strlit("-a");
    vstd::utf8::is_ascii_chars_encode_utf8("-a"@);
    assert("-a".spec_bytes() =~= seq![45u8, 97u8]);
}

/// The bytes of `-e`.
proof fn lemma_bytes_short_e()
    ensures
        "-e".spec_bytes() == seq![45u8, 101u8],
{
    reveal_strlit("-e");
    vstd::utf8::is_ascii_chars_encode_utf8("-e"@);
    assert("-e".spec_bytes() =~= seq![45u8, 101u8]);
}

/// The bytes of `-g`.
proof fn lemma_bytes_short_g()
    ensures
        "-g".spec_bytes() == seq![45u8, 103u8],
{
    reveal_strlit("-g");
    vstd::utf8::is_ascii_chars_encode_utf8("-g"@);
    assert("-g".spec_bytes() =~= seq![45u8, 103u8]);
}

/// The bytes of `-r`.
proof fn lemma_bytes_short_r()
    ensures
        "-r".spec_bytes() == seq![45u8, 114u8],
{
    reveal_strlit("-r");
    vstd::utf8::is_ascii_chars_encode_utf8("-r"@);
    assert("-r".spec_bytes() =~= seq![45u8, 114u8]);
}

/// The bytes of `-f`.
proof fn lemma_bytes_short_f()
    ensures
        "-f".spec_bytes() == seq![45u8, 102u8],
{
    reveal_strlit("-f");
    vstd::utf8::is_ascii_chars_encode_utf8("-f"@);
    assert("-f".spec_bytes() =~= seq![45u8, 102u8]);
}

/// The bytes of `-d`.
proof fn lemma_bytes_short_d()
    ensures
        "-d".spec_bytes() == seq![45u8, 100u8],
{
    reveal_strlit("-d");
    vstd::utf8::is_ascii_chars_encode_utf8("-d"@);
    assert("-d".spec_bytes() =~= seq![45u8, 100u8]);
}

/// The bytes of `-L`.
proof fn lemma_bytes_short_upper_l()
    ensures
        "-L".spec_bytes() == seq![45u8, 76u8],
{
    reveal_strlit("-L");
    vstd::utf8::is_ascii_chars_encode_utf8("-L"@);
    assert("-L".spec_bytes() =~= seq![45u8, 76u8]);
}

/// The bytes of `-P`.
proof fn lemma_bytes_short_upper_p()
    ensures
        "-P".spec_bytes() == seq![45u8, 80u8],
{
    reveal_strlit("-P");
    vstd::utf8::is_ascii_chars_encode_utf8("-P"@);
    assert("-P".spec_bytes() =~= seq![45u8, 80u8]);
}

/// The bytes of `-0`.
proof fn lemma_bytes_short_zero()
    ensures
        "-0".spec_bytes() == seq![45u8, 48u8],
{
    reveal_strlit("-0");
    vstd::utf8::is_ascii_chars_encode_utf8("-0"@);
    assert("-0".spec_bytes() =~= seq![45u8, 48u8]);
}

/// The bytes of `-h`.
proof fn lemma_bytes_short_h()
    ensures
        "-h".spec_bytes() == seq![45u8, 104u8],
{
    reveal_strlit("-h");
    vstd::utf8::is_ascii_chars_encode_utf8("-h"@);
    assert("-h".spec_bytes() =~= seq![45u8, 104u8]);
}

/// The bytes of `-V`.
proof fn lemma_bytes_short_upper_v()
    ensures
        "-V".spec_bytes() == seq![45u8, 86u8],
{
    reveal_strlit("-V");
    vstd::utf8::is_ascii_chars_encode_utf8("-V"@);
    assert("-V".spec_bytes() =~= seq![45u8, 86u8]);
}

/// The bytes of the flag names, which are ASCII.
pub proof fn lemma_flag_name_bytes()
    ensures
        "--".spec_bytes() == seq![45u8, 45u8],
        "-".spec_bytes() == seq![45u8],
        "--completions".spec_bytes() == seq![45u8, 45u8, 99u8, 111u8, 109u8, 112u8, 108u8, 101u8, 116u8, 105u8, 111u8, 110u8, 115u8],
        "--all".spec_bytes() == seq![45u8, 45u8, 97u8, 108u8, 108u8],
        "--echo".spec_bytes() == seq![45u8, 45u8, 101u8, 99u8, 104u8, 111u8],
        "--null".spec_bytes() == seq![45u8, 45u8, 110u8, 117u8, 108u8, 108u8],
        "--relative".spec_bytes() == seq![45u8, 45u8, 114u8, 101u8, 108u8, 97u8, 116u8, 105u8, 118u8, 101u8],
        "--git".spec_bytes() == seq![45u8, 45u8, 103u8, 105u8, 116u8],
        "--root".spec_bytes() == seq![45u8, 45u8, 114u8, 111u8, 111u8, 116u8],
        "--files".spec_bytes() == seq![45u8, 45u8, 102u8, 105u8, 108u8, 101u8, 115u8],
        "--dirs".spec_bytes() == seq![45u8, 45u8, 100u8, 105u8, 114u8, 115u8],
        "--follow".spec_bytes() == seq![45u8, 45u8, 102u8, 111u8, 108u8, 108u8, 111u8, 119u8],
        "--no-follow".spec_bytes() == seq![45u8, 45u8, 110u8, 111u8, 45u8, 102u8, 111u8, 108u8, 108u8, 111u8, 119u8],
        "--help".spec_bytes() == seq![45u8, 45u8, 104u8, 101u8, 108u8, 112u8],
        "--version".spec_bytes() == seq![45u8, 45u8, 118u8, 101u8, 114u8, 115u8, 105u8, 111u8, 110u8],
        "-a".spec_bytes() == seq![45u8, 97u8],
        "-e".spec_bytes() == seq![45u8, 101u8],
        "-g".spec_bytes() == seq![45u8, 103u8],
        "-r".spec_bytes() == seq![45u8, 114u8],
        "-f".spec_bytes() == seq![45u8, 102u8],
        "-d".spec_bytes() == seq![45u8, 100u8],
        "-L".spec_bytes() == seq![45u8, 76u8],
        "-P".spec_bytes() == seq![45u8, 80u8],
        "-0".spec_bytes() == seq![45u8, 48u8],
        "-h".spec_bytes() == seq![45u8, 104u8],
        "-V".spec_bytes() == seq![45u8, 86u8],
{
    lemma_bytes_dashdash();
    lemma_bytes_dash();
    lemma_bytes_completions();
    lemma_bytes_long_all();
    lemma_bytes_long_echo();
    lemma_bytes_long_null();
    lemma_bytes_long_relative();
    lemma_bytes_long_git();
    lemma_bytes_long_root();
    lemma_bytes_long_files();
    lemma_bytes_long_dirs();
    lemma_bytes_long_follow();
    lemma_bytes_long_no_follow();
    lemma_bytes_long_help();
    lemma_bytes_long_version();
    lemma_bytes_short_a();
    lemma_bytes_short_e();
    lemma_bytes_short_g();
    lemma_bytes_short_r();
    lemma_bytes_short_f();
    lemma_bytes_short_d();
    lemma_bytes_short_upper_l();
    lemma_bytes_short_upper_p();
    lemma_bytes_short_zero();
    lemma_bytes_short_h();
    lemma_bytes_short_upper_v();
}

/// Each long flag sets its own setting and nothing else: `--all` sets
/// `all`, `--echo` `echo`, `--null` `null_terminate`, `--relative`
/// `relative`, `--git` `git`, `--root` `root`, `--files` `files_only`,
/// `--dirs` `dirs_only`, `--follow` `follow_explicit`, `--no-follow`
/// `no_follow_explicit`, `--help` `help`, `--version` `version`.
pub proof fn lemma_long_flag_settings(st: ArgsView)
    ensures
        long_flag(st, "--all".spec_bytes()) == Some((ArgsView { all: true, ..st })),
        long_flag(st, "--echo".spec_bytes()) == Some((ArgsView { echo: true, ..st })),
        long_flag(st, "--null".spec_bytes()) == Some((ArgsView { null_terminate: true, ..st })),
        long_flag(st, "--relative".spec_bytes()) == Some((ArgsView { relative: true, ..st })),
        long_flag(st, "--git".spec_bytes()) == Some((ArgsView { git: true, ..st })),
        long_flag(st, "--root".spec_bytes()) == Some((ArgsView { root: true, ..st })),
        long_flag(st, "--files".spec_bytes()) == Some((ArgsView { files_only: true, ..st })),
        long_flag(st, "--dirs".spec_bytes()) == Some((ArgsView { dirs_only: true, ..st })),
        long_flag(st, "--follow".spec_bytes()) == Some((ArgsView { follow_explicit: true, ..st })),
        long_flag(st, "--no-follow".spec_bytes()) == Some((ArgsView { no_follow_explicit: true, ..st })),
        long_flag(st, "--help".spec_bytes()) == Some((ArgsView { help: true, ..st })),
        long_flag(st, "--version".spec_bytes()) == Some((ArgsView { version: true, ..st })),
{
    lemma_flag_name_bytes();
}

/// Each short flag sets the same setting as its long form: `-a` all, `-e`
/// echo, `-g` git, `-r` root, `-f` files only, `-d` directories only, `-L`
/// follow, `-P` no-follow, `-0` NUL-terminated, `-h` help, `-V` version.
pub proof fn lemma_short_flag_settings(st: ArgsView)
    ensures
        short_flag(st, 'a' as u8) == Some((ArgsView { all: true, ..st })),
        short_flag(st, 'e' as u8) == Some((ArgsView { echo: true, ..st })),
        short_flag(st, 'g' as u8) == Some((ArgsView { git: true, ..st })),
        short_flag(st, 'r' as u8) == Some((ArgsView { root: true, ..st })),
        short_flag(st, 'f' as u8) == Some((ArgsView { files_only: true, ..st })),
        short_flag(st, 'd' as u8) == Some((ArgsView { dirs_only: true, ..st })),
        short_flag(st, 'L' as u8) == Some((ArgsView { follow_explicit: true, ..st })),
        short_flag(st, 'P' as u8) == Some((ArgsView { no_follow_explicit: true, ..st })),
        short_flag(st, '0' as u8) == Some((ArgsView { null_terminate: true, ..st })),
        short_flag(st, 'h' as u8) == Some((ArgsView { help: true, ..st })),
        short_flag(st, 'V' as u8) == Some((ArgsView { version: true, ..st })),
{
}

/// A query argument: one that does not start with `-`.
pub open spec fn is_plain_query(q: Seq<u8>) -> bool {
    q.len() == 0 || q[0] != '-' as u8
}

/// Parsing one flag argument `f` that sets `r`, then the query `q`.
proof fn lemma_parse_flag_query(f: Seq<u8>, q: Seq<u8>, r: ArgsView)
    requires
        is_plain_query(q),
        f.len() >= 2,
        f[0] == '-' as u8,
        f != "--".spec_bytes(),
        f != "--completions".spec_bytes(),
        has_prefix(f, "--".spec_bytes()) ==> long_flag(default_args(), f) == Some(r),
        !has_prefix(f, "--".spec_bytes()) ==> first_unknown_short(f.drop_first()) is None
            && apply_shorts(default_args(), f.drop_first()) == r,
    ensures
        parse_spec(seq![f, q]) == match validate_spec((ArgsView { query: Some(q), ..r })) {
            None => Ok::<ArgsView, Seq<char>>((ArgsView { query: Some(q), ..r })),
            Some(m) => Err(m),
        },
{
    lemma_bytes_dashdash();
    lemma_bytes_dash();
    lemma_bytes_completions();
    let args = seq![f, q];
    assert(args[0] == f && args[1] == q);
    assert(has_prefix(f, "-".spec_bytes())) by {
        assert(f.subrange(0, 1) =~= seq![45u8]);
    }
    if q.len() > 0 {
        assert(q.subrange(0, 1)[0] == q[0]);
        if q.len() > 1 {
            assert(q.subrange(0, 2)[0] == q[0]);
        }
    }
    assert(!has_prefix(q, "-".spec_bytes()) && !has_prefix(q, "--".spec_bytes()));
    assert(q != "--".spec_bytes());
    assert(parse_spec(args) == parse_from(args, 1, r, true));
    assert(parse_from(args, 1, r, true) == parse_from(args, 2, ArgsView { query: Some(q), ..r }, true));
}

/// `--all` or `-a` before a query sets `all` and nothing else.
pub proof fn lemma_parse_all_flag(q: Seq<u8>)
    requires
        is_plain_query(q),
    ensures
        parse_spec(seq!["--all".spec_bytes(), q]) == Ok::<ArgsView, Seq<char>>((ArgsView {
            all: true,
            query: Some(q),
            ..default_args()
        })),
        parse_spec(seq!["-a".spec_bytes(), q]) == Ok::<ArgsView, Seq<char>>((ArgsView {
            all: true,
            query: Some(q),
            ..default_args()
        })),
{
    lemma_bytes_dashdash();
    lemma_bytes_completions();
    lemma_bytes_long_all();
    lemma_bytes_short_a();
    lemma_long_flag_settings(default_args());
    assert(has_prefix("--all".spec_bytes(), "--".spec_bytes())) by {
        assert("--all".spec_bytes().subrange(0, 2) =~= seq![45u8, 45u8]);
    }
    lemma_parse_flag_query("--all".spec_bytes(), q, ArgsView { all: true, ..default_args() });
    let shorts = "-a".spec_bytes().drop_first();
    assert(shorts =~= seq!['a' as u8]);
    assert(shorts.drop_first() =~= Seq::<u8>::empty());
    assert(!has_prefix("-a".spec_bytes(), "--".spec_bytes())) by {
        assert("-a".spec_bytes().subrange(0, 2) =~= seq![45u8, 97u8]);
    }
    assert(shorts[0] == 'a' as u8);
    assert(first_unknown_short(shorts.drop_first()) is None);
    assert(first_unknown_short(shorts) is None);
    assert(apply_shorts(ArgsView { all: true, ..default_args() }, shorts.drop_first()) == ArgsView { all: true, ..default_args() });
    assert(apply_shorts(default_args(), shorts) == ArgsView { all: true, ..default_args() });
    lemma_parse_flag_query("-a".spec_bytes(), q, ArgsView { all: true, ..default_args() });
}

/// `--echo` or `-e` before a query sets `echo` and nothing else.
pub proof fn lemma_parse_echo_flag(q: Seq<u8>)
    requires
        is_plain_query(q),
    ensures
        parse_spec(seq!["--echo".spec_bytes(), q]) == Ok::<ArgsView, Seq<char>>((ArgsView {
            echo: true,
            query: Some(q),
            ..default_args()
        })),
        parse_spec(seq!["-e".spec_bytes(), q]) == Ok::<ArgsView, Seq<char>>((ArgsView {
            echo: true,
            query: Some(q),
            ..default_args()
        })),
{
    lemma_bytes_dashdash();
    lemma_bytes_completions();
    lemma_bytes_long_echo();
    lemma_bytes_short_e();
    lemma_long_flag_settings(default_args());
    assert(has_prefix("--echo".spec_bytes(), "--".spec_bytes())) by {
        assert("--echo".spec_bytes().subrange(0, 2) =~= seq![45u8, 45u8]);
    }
    lemma_parse_flag_query("--echo".spec_bytes(), q, ArgsView { echo: true, ..default_args() });
    let shorts = "-e".spec_bytes().drop_first();
    assert(shorts =~= seq!['e' as u8]);
    assert(shorts.drop_first() =~= Seq::<u8>::empty());
    assert(!has_prefix("-e".spec_bytes(), "--".spec_bytes())) by {
        assert("-e".spec_bytes().subrange(0, 2) =~= seq![45u8, 101u8]);
    }
    assert(shorts[0] == 'e' as u8);
    assert(first_unknown_short(shorts.drop_first()) is None);
    assert(first_unknown_short(shorts) is None);
    assert(apply_shorts(ArgsView { echo: true, ..default_args() }, shorts.drop_first()) == ArgsView { echo: true, ..default_args() });
    assert(apply_shorts(default_args(), shorts) == ArgsView { echo: true, ..default_args() });
    lemma_parse_flag_query("-e".spec_bytes(), q, ArgsView { echo: true, ..default_args() });
}

/// `--null` or `-0` before a query sets `null_terminate` and nothing else.
pub proof fn lemma_parse_null_terminate_flag(q: Seq<u8>)
    requires
        is_plain_query(q),
    ensures
        parse_spec(seq!["--null".spec_bytes(), q]) == Ok::<ArgsView, Seq<char>>((ArgsView {
            null_terminate: true,
            query: Some(q),
            ..default_args()
        })),
        parse_spec(seq!["-0".spec_bytes(), q]) == Ok::<ArgsView, Seq<char>>((ArgsView {
            null_terminate: true,
            query: Some(q),
            ..default_args()
        })),
{
    lemma_bytes_dashdash();
    lemma_bytes_completions();
    lemma_bytes_long_null();
    lemma_bytes_short_zero();
    lemma_long_flag_settings(default_args());
    assert(has_prefix("--null".spec_bytes(), "--".spec_bytes())) by {
        assert("--null".spec_bytes().subrange(0, 2) =~= seq![45u8, 45u8]);
    }
    lemma_parse_flag_query("--null".spec_bytes(), q, ArgsView { null_terminate: true, ..default_args() });
    let shorts = "-0".spec_bytes().drop_first();
    assert(shorts =~= seq!['0' as u8]);
    assert(shorts.drop_first() =~= Seq::<u8>::empty());
    assert(!has_prefix("-0".spec_bytes(), "--".spec_bytes())) by {
        assert("-0".spec_bytes().subrange(0, 2) =~= seq![45u8, 48u8]);
    }
    assert(shorts[0] == '0' as u8);
    assert(first_unknown_short(shorts.drop_first()) is None);
    assert(first_unknown_short(shorts) is None);
    assert(apply_shorts(ArgsView { null_terminate: true, ..default_args() }, shorts.drop_first()) == ArgsView { null_terminate: true, ..default_args() });
    assert(apply_shorts(default_args(), shorts) == ArgsView { null_terminate: true, ..default_args() });
    lemma_parse_flag_query("-0".spec_bytes(), q, ArgsView { null_terminate: true, ..default_args() });
}

/// `--relative` before a query sets `relative` and nothing else.
pub proof fn lemma_parse_relative_flag(q: Seq<u8>)
    requires
        is_plain_query(q),
    ensures
        parse_spec(seq!["--relative".spec_bytes(), q]) == Ok::<ArgsView, Seq<char>>((ArgsView {
            relative: true,
            query: Some(q),
            ..default_args()
        })),
{
    lemma_bytes_dashdash();
    lemma_bytes_completions();
    lemma_bytes_long_relative();
    lemma_long_flag_settings(default_args());
    assert(has_prefix("--relative".spec_bytes(), "--".spec_bytes())) by {
        assert("--relative".spec_bytes().subrange(0, 2) =~= seq![45u8, 45u8]);
    }
    lemma_parse_flag_query("--relative".spec_bytes(), q, ArgsView { relative: true, ..default_args() });
}

/// `--git` or `-g` before a query sets `git` and nothing else.
pub proof fn lemma_parse_git_flag(q: Seq<u8>)
    requires
        is_plain_query(q),
    ensures
        parse_spec(seq!["--git".spec_bytes(), q]) == Ok::<ArgsView, Seq<char>>((ArgsView {
            git: true,
            query: Some(q),
            ..default_args()
        })),
        parse_spec(seq!["-g".spec_bytes(), q]) == Ok::<ArgsView, Seq<char>>((ArgsView {
            git: true,
            query: Some(q),
            ..default_args()
        })),
{
    lemma_bytes_dashdash();
    lemma_bytes_completions();
    lemma_bytes_long_git();
    lemma_bytes_short_g();
    lemma_long_flag_settings(default_args());
    assert(has_prefix("--git".spec_bytes(), "--".spec_bytes())) by {
        assert("--git".spec_bytes().subrange(0, 2) =~= seq![45u8, 45u8]);
    }
    lemma_parse_flag_query("--git".spec_bytes(), q, ArgsView { git: true, ..default_args() });
    let shorts = "-g".spec_bytes().drop_first();
    assert(shorts =~= seq!['g' as u8]);
    assert(shorts.drop_first() =~= Seq::<u8>::empty());
    assert(!has_prefix("-g".spec_bytes(), "--".spec_bytes())) by {
        assert("-g".spec_bytes().subrange(0, 2) =~= seq![45u8, 103u8]);
    }
    assert(shorts[0] == 'g' as u8);
    assert(first_unknown_short(shorts.drop_first()) is None);
    assert(first_unknown_short(shorts) is None);
    assert(apply_shorts(ArgsView { git: true, ..default_args() }, shorts.drop_first()) == ArgsView { git: true, ..default_args() });
    assert(apply_shorts(default_args(), shorts) == ArgsView { git: true, ..default_args() });
    lemma_parse_flag_query("-g".spec_bytes(), q, ArgsView { git: true, ..default_args() });
}

/// `--root` or `-r` before a query sets `root` and nothing else.
pub proof fn lemma_parse_root_flag(q: Seq<u8>)
    requires
        is_plain_query(q),
    ensures
        parse_spec(seq!["--root".spec_bytes(), q]) == Ok::<ArgsView, Seq<char>>((ArgsView {
            root: true,
            query: Some(q),
            ..default_args()
        })),
        parse_spec(seq!["-r".spec_bytes(), q]) == Ok::<ArgsView, Seq<char>>((ArgsView {
            root: true,
            query: Some(q),
            ..default_args()
        })),
{
    lemma_bytes_dashdash();
    lemma_bytes_completions();
    lemma_bytes_long_root();
    lemma_bytes_short_r();
    lemma_long_flag_settings(default_args());
    assert(has_prefix("--root".spec_bytes(), "--".spec_bytes())) by {
        assert("--root".spec_bytes().subrange(0, 2) =~= seq![45u8, 45u8]);
    }
    lemma_parse_flag_query("--root".spec_bytes(), q, ArgsView { root: true, ..default_args() });
    let shorts = "-r".spec_bytes().drop_first();
    assert(shorts =~= seq!['r' as u8]);
    assert(shorts.drop_first() =~= Seq::<u8>::empty());
    assert(!has_prefix("-r".spec_bytes(), "--".spec_bytes())) by {
        assert("-r".spec_bytes().subrange(0, 2) =~= seq![45u8, 114u8]);
    }
    assert(shorts[0] == 'r' as u8);
    assert(first_unknown_short(shorts.drop_first()) is None);
    assert(first_unknown_short(shorts) is None);
    assert(apply_shorts(ArgsView { root: true, ..default_args() }, shorts.drop_first()) == ArgsView { root: true, ..default_args() });
    assert(apply_shorts(default_args(), shorts) == ArgsView { root: true, ..default_args() });
    lemma_parse_flag_query("-r".spec_bytes(), q, ArgsView { root: true, ..default_args() });
}

/// `--files` or `-f` before a query sets `files_only` and nothing else.
pub proof fn lemma_parse_files_only_flag(q: Seq<u8>)
    requires
        is_plain_query(q),
    ensures
        parse_spec(seq!["--files".spec_bytes(), q]) == Ok::<ArgsView, Seq<char>>((ArgsView {
            files_only: true,
            query: Some(q),
            ..default_args()
        })),
        parse_spec(seq!["-f".spec_bytes(), q]) == Ok::<ArgsView, Seq<char>>((ArgsView {
            files_only: true,
            query: Some(q),
            ..default_args()
        })),
{
    lemma_bytes_dashdash();
    lemma_bytes_completions();
    lemma_bytes_long_files();
    lemma_bytes_short_f();
    lemma_long_flag_settings(default_args());
    assert(has_prefix("--files".spec_bytes(), "--".spec_bytes())) by {
        assert("--files".spec_bytes().subrange(0, 2) =~= seq![45u8, 45u8]);
    }
    lemma_parse_flag_query("--files".spec_bytes(), q, ArgsView { files_only: true, ..default_args() });
    let shorts = "-f".spec_bytes().drop_first();
    assert(shorts =~= seq!['f' as u8]);
    assert(shorts.drop_first() =~= Seq::<u8>::empty());
    assert(!has_prefix("-f".spec_bytes(), "--".spec_bytes())) by {
        assert("-f".spec_bytes().subrange(0, 2) =~= seq![45u8, 102u8]);
    }
    assert(shorts[0] == 'f' as u8);
    assert(first_unknown_short(shorts.drop_first()) is None);
    assert(first_unknown_short(shorts) is None);
    assert(apply_shorts(ArgsView { files_only: true, ..default_args() }, shorts.drop_first()) == ArgsView { files_only: true, ..default_args() });
    assert(apply_shorts(default_args(), shorts) == ArgsView { files_only: true, ..default_args() });
    lemma_parse_flag_query("-f".spec_bytes(), q, ArgsView { files_only: true, ..default_args() });
}

/// `--dirs` or `-d` before a query sets `dirs_only` and nothing else.
pub proof fn lemma_parse_dirs_only_flag(q: Seq<u8>)
    requires
        is_plain_query(q),
    ensures
        parse_spec(seq!["--dirs".spec_bytes(), q]) == Ok::<ArgsView, Seq<char>>((ArgsView {
            dirs_only: true,
            query: Some(q),
            ..default_args()
        })),
        parse_spec(seq!["-d".spec_bytes(), q]) == Ok::<ArgsView, Seq<char>>((ArgsView {
            dirs_only: true,
            query: Some(q),
            ..default_args()
        })),
{
    lemma_bytes_dashdash();
    lemma_bytes_completions();
    lemma_bytes_long_dirs();
    lemma_bytes_short_d();
    lemma_long_flag_settings(default_args());
    assert(has_prefix("--dirs".spec_bytes(), "--".spec_bytes())) by {
        assert("--dirs".spec_bytes().subrange(0, 2) =~= seq![45u8, 45u8]);
    }
    lemma_parse_flag_query("--dirs".spec_bytes(), q, ArgsView { dirs_only: true, ..default_args() });
    let shorts = "-d".spec_bytes().drop_first();
    assert(shorts =~= seq!['d' as u8]);
    assert(shorts.drop_first() =~= Seq::<u8>::empty());
    assert(!has_prefix("-d".spec_bytes(), "--".spec_bytes())) by {
        assert("-d".spec_bytes().subrange(0, 2) =~= seq![45u8, 100u8]);
    }
    assert(shorts[0] == 'd' as u8);
    assert(first_unknown_short(shorts.drop_first()) is None);
    assert(first_unknown_short(shorts) is None);
    assert(apply_shorts(ArgsView { dirs_only: true, ..default_args() }, shorts.drop_first()) == ArgsView { dirs_only: true, ..default_args() });
    assert(apply_shorts(default_args(), shorts) == ArgsView { dirs_only: true, ..default_args() });
    lemma_parse_flag_query("-d".spec_bytes(), q, ArgsView { dirs_only: true, ..default_args() });
}

/// `--follow` or `-L` before a query sets `follow_explicit` and nothing else.
pub proof fn lemma_parse_follow_flag(q: Seq<u8>)
    requires
        is_plain_query(q),
    ensures
        parse_spec(seq!["--follow".spec_bytes(), q]) == Ok::<ArgsView, Seq<char>>((ArgsView {
            follow_explicit: true,
            query: Some(q),
            ..default_args()
        })),
        parse_spec(seq!["-L".spec_bytes(), q]) == Ok::<ArgsView, Seq<char>>((ArgsView {
            follow_explicit: true,
            query: Some(q),
            ..default_args()
        })),
{
    lemma_bytes_dashdash();
    lemma_bytes_completions();
    lemma_bytes_long_follow();
    lemma_bytes_short_upper_l();
    lemma_long_flag_settings(default_args());
    assert(has_prefix("--follow".spec_bytes(), "--".spec_bytes())) by {
        assert("--follow".spec_bytes().subrange(0, 2) =~= seq![45u8, 45u8]);
    }
    lemma_parse_flag_query("--follow".spec_bytes(), q, ArgsView { follow_explicit: true, ..default_args() });
    let shorts = "-L".spec_bytes().drop_first();
    assert(shorts =~= seq!['L' as u8]);
    assert(shorts.drop_first() =~= Seq::<u8>::empty());
    assert(!has_prefix("-L".spec_bytes(), "--".spec_bytes())) by {
        assert("-L".spec_bytes().subrange(0, 2) =~= seq![45u8, 76u8]);
    }
    assert(shorts[0] == 'L' as u8);
    assert(first_unknown_short(shorts.drop_first()) is None);
    assert(first_unknown_short(shorts) is None);
    assert(apply_shorts(ArgsView { follow_explicit: true, ..default_args() }, shorts.drop_first()) == ArgsView { follow_explicit: true, ..default_args() });
    assert(apply_shorts(default_args(), shorts) == ArgsView { follow_explicit: true, ..default_args() });
    lemma_parse_flag_query("-L".spec_bytes(), q, ArgsView { follow_explicit: true, ..default_args() });
}

/// `--no-follow` or `-P` before a query sets `no_follow_explicit` and nothing else.
pub proof fn lemma_parse_no_follow_flag(q: Seq<u8>)
    requires
        is_plain_query(q),
    ensures
        parse_spec(seq!["--no-follow".spec_bytes(), q]) == Ok::<ArgsView, Seq<char>>((ArgsView {
            no_follow_explicit: true,
            query: Some(q),
            ..default_args()
        })),
        parse_spec(seq!["-P".spec_bytes(), q]) == Ok::<ArgsView, Seq<char>>((ArgsView {
            no_follow_explicit: true,
            query: Some(q),
            ..default_args()
        })),
{
    lemma_bytes_dashdash();
    lemma_bytes_completions();
    lemma_bytes_long_no_follow();
    lemma_bytes_short_upper_p();
    lemma_long_flag_settings(default_args());
    assert(has_prefix("--no-follow".spec_bytes(), "--".spec_bytes())) by {
        assert("--no-follow".spec_bytes().subrange(0, 2) =~= seq![45u8, 45u8]);
    }
    lemma_parse_flag_query("--no-follow".spec_bytes(), q, ArgsView { no_follow_explicit: true, ..default_args() });
    let shorts = "-P".spec_bytes().drop_first();
    assert(shorts =~= seq!['P' as u8]);
    assert(shorts.drop_first() =~= Seq::<u8>::empty());
    assert(!has_prefix("-P".spec_bytes(), "--".spec_bytes())) by {
        assert("-P".spec_bytes().subrange(0, 2) =~= seq![45u8, 80u8]);
    }
    assert(shorts[0] == 'P' as u8);
    assert(first_unknown_short(shorts.drop_first()) is None);
    assert(first_unknown_short(shorts) is None);
    assert(apply_shorts(ArgsView { no_follow_explicit: true, ..default_args() }, shorts.drop_first()) == ArgsView { no_follow_explicit: true, ..default_args() });
    assert(apply_shorts(default_args(), shorts) == ArgsView { no_follow_explicit: true, ..default_args() });
    lemma_parse_flag_query("-P".spec_bytes(), q, ArgsView { no_follow_explicit: true, ..default_args() });
}

/// `--help` or `-h` before a query sets `help` and nothing else.
pub proof fn lemma_parse_help_flag(q: Seq<u8>)
    requires
        is_plain_query(q),
    ensures
        parse_spec(seq!["--help".spec_bytes(), q]) == Ok::<ArgsView, Seq<char>>((ArgsView {
            help: true,
            query: Some(q),
            ..default_args()
        })),
        parse_spec(seq!["-h".spec_bytes(), q]) == Ok::<ArgsView, Seq<char>>((ArgsView {
            help: true,
            query: Some(q),
            ..default_args()
        })),
{
    lemma_bytes_dashdash();
    lemma_bytes_completions();
    lemma_bytes_long_help();
    lemma_bytes_short_h();
    lemma_long_flag_settings(default_args());
    assert(has_prefix("--help".spec_bytes(), "--".spec_bytes())) by {
        assert("--help".spec_bytes().subrange(0, 2) =~= seq![45u8, 45u8]);
    }
    lemma_parse_flag_query("--help".spec_bytes(), q, ArgsView { help: true, ..default_args() });
    let shorts = "-h".spec_bytes().drop_first();
    assert(shorts =~= seq!['h' as u8]);
    assert(shorts.drop_first() =~= Seq::<u8>::empty());
    assert(!has_prefix("-h".spec_bytes(), "--".spec_bytes())) by {
        assert("-h".spec_bytes().subrange(0, 2) =~= seq![45u8, 104u8]);
    }
    assert(shorts[0] == 'h' as u8);
    assert(first_unknown_short(shorts.drop_first()) is None);
    assert(first_unknown_short(shorts) is None);
    assert(apply_shorts(ArgsView { help: true, ..default_args() }, shorts.drop_first()) == ArgsView { help: true, ..default_args() });
    assert(apply_shorts(default_args(), shorts) == ArgsView { help: true, ..default_args() });
    lemma_parse_flag_query("-h".spec_bytes(), q, ArgsView { help: true, ..default_args() });
}

/// `--version` or `-V` before a query sets `version` and nothing else.
pub proof fn lemma_parse_version_flag(q: Seq<u8>)
    requires
        is_plain_query(q),
    ensures
        parse_spec(seq!["--version".spec_bytes(), q]) == Ok::<ArgsView, Seq<char>>((ArgsView {
            version: true,
            query: Some(q),
            ..default_args()
        })),
        parse_spec(seq!["-V".spec_bytes(), q]) == Ok::<ArgsView, Seq<char>>((ArgsView {
            version: true,
            query: Some(q),
            ..default_args()
        })),
{
    lemma_bytes_dashdash();
    lemma_bytes_completions();
    lemma_bytes_long_version();
    lemma_bytes_short_upper_v();
    lemma_long_flag_settings(default_args());
    assert(has_prefix("--version".spec_bytes(), "--".spec_bytes())) by {
        assert("--version".spec_bytes().subrange(0, 2) =~= seq![45u8, 45u8]);
    }
    lemma_parse_flag_query("--version".spec_bytes(), q, ArgsView { version: true, ..default_args() });
    let shorts = "-V".spec_bytes().drop_first();
    assert(shorts =~= seq!['V' as u8]);
    assert(shorts.drop_first() =~= Seq::<u8>::empty());
    assert(!has_prefix("-V".spec_bytes(), "--".spec_bytes())) by {
        assert("-V".spec_bytes().subrange(0, 2) =~= seq![45u8, 86u8]);
    }
    assert(shorts[0] == 'V' as u8);
    assert(first_unknown_short(shorts.drop_first()) is None);
    assert(first_unknown_short(shorts) is None);
    assert(apply_shorts(ArgsView { version: true, ..default_args() }, shorts.drop_first()) == ArgsView { version: true, ..default_args() });
    assert(apply_shorts(default_args(), shorts) == ArgsView { version: true, ..default_args() });
    lemma_parse_flag_query("-V".spec_bytes(), q, ArgsView { version: true, ..default_args() });
}

/// `validate` refuses exactly the documented combinations: no query when
/// neither help, version nor a completion script was asked for, or one of
/// the pairs `-g`/`-r`, `-f`/`-d`, `-L`/`-P` given together; every other
/// setting (`-a`, `-e`, `-0`, `--relative`, ...) is free.
pub proof fn lemma_validate_rules(a: ArgsView)
    ensures
        validate_spec(a) is None <==> {
            &&& a.help || a.version || a.completions_shell is Some || a.query is Some
            &&& !(a.git && a.root)
            &&& !(a.files_only && a.dirs_only)
            &&& !(a.follow_explicit && a.no_follow_explicit)
        },
{
}

} // verus!
