//! The command line, and what is opened on its account.
use crate::buffer;
use crate::text;
use vstd::prelude::*;
use vstd::utf8::*;

verus! {

/// The version of the program.
pub const VERSION: &'static str = "0.1.0";

/// What `--help` prints.
pub const HELP_TEXT: &'static str =
    "lz 0.1.0 — a minimal pager

USAGE: lz [OPTIONS] [FILE]

OPTIONS:
    --follow    Follow mode (like tail -f)
    --force     View binary files
    -r, --raw   Raw mode (show ANSI escapes literally)
    -h, --help  Show this help
    -V, --version  Show version

KEYS:
    j/Down      Scroll down       k/Up        Scroll up
    Space/PgDn  Page down          b/PgUp      Page up
    d/Ctrl-D    Half page down     u/Ctrl-U    Half page up
    g/Home      Top                G/End       Bottom
    Left/Right  Horizontal scroll  w           Toggle wrap
    /           Search             n/N         Next/prev match
    F           Enter follow mode  q/Esc       Quit

FILE:
    File to view. If omitted or '-', reads stdin.";

/// What the command line says.
#[verifier::ext_equal]
pub struct ArgsView {
    pub follow: bool,
    pub force: bool,
    pub raw_mode: bool,
    pub filename: Option<Seq<char>>,
    pub stdin_explicit: bool,
    pub help: bool,
    pub version: bool,
}

/// What is wrong with a command line.
#[verifier::ext_equal]
pub enum UsageErrorView {
    TooManyArguments,
    UnknownOption(Seq<char>),
    MissingFilename,
}

/// No arguments.
pub open spec fn no_args() -> ArgsView {
    ArgsView {
        follow: false,
        force: false,
        raw_mode: false,
        filename: None,
        stdin_explicit: false,
        help: false,
        version: false,
    }
}

/// `args` with a file name; there can be only one.
pub open spec fn with_file(args: ArgsView, name: Seq<char>) -> Result<ArgsView, UsageErrorView> {
    if args.filename is Some {
        Err(UsageErrorView::TooManyArguments)
    } else {
        Ok(ArgsView { filename: Some(name), ..args })
    }
}

/// `args` with an argument that comes before any `--`.
pub open spec fn with_arg(args: ArgsView, arg: Seq<char>) -> Result<ArgsView, UsageErrorView> {
    if arg == "-"@ {
        Ok(ArgsView { stdin_explicit: true, ..args })
    } else if arg == "--follow"@ {
        Ok(ArgsView { follow: true, ..args })
    } else if arg == "--force"@ {
        Ok(ArgsView { force: true, ..args })
    } else if arg == "-r"@ || arg == "--raw"@ {
        Ok(ArgsView { raw_mode: true, ..args })
    } else if arg == "--help"@ || arg == "-h"@ {
        Ok(ArgsView { help: true, ..args })
    } else if arg == "--version"@ || arg == "-V"@ {
        Ok(ArgsView { version: true, ..args })
    } else if arg.len() > 0 && arg[0] == '-' {
        Err(UsageErrorView::UnknownOption(arg))
    } else {
        with_file(args, arg)
    }
}

/// What a command line says after `args`. After `--` there are only files. The
/// first argument that is wrong decides.
pub open spec fn with_all(args: ArgsView, rest: Seq<Seq<char>>, only_files: bool) -> Result<
    ArgsView,
    UsageErrorView,
>
    decreases rest.len(),
{
    if rest.len() == 0 {
        Ok(args)
    } else if !only_files && rest[0] == "--"@ {
        with_all(args, rest.skip(1), true)
    } else {
        match if only_files {
            with_file(args, rest[0])
        } else {
            with_arg(args, rest[0])
        } {
            Ok(next) => with_all(next, rest.skip(1), only_files),
            Err(e) => Err(e),
        }
    }
}

/// What the command line says.
pub struct Args {
    pub follow: bool,
    pub force: bool,
    pub raw_mode: bool,
    pub filename: Option<String>,
    pub stdin_explicit: bool,
    pub help: bool,
    pub version: bool,
}

impl View for Args {
    type V = ArgsView;

    open spec fn view(&self) -> ArgsView {
        ArgsView {
            follow: self.follow,
            force: self.force,
            raw_mode: self.raw_mode,
            filename: match self.filename {
                Some(name) => Some(name@),
                None => None,
            },
            stdin_explicit: self.stdin_explicit,
            help: self.help,
            version: self.version,
        }
    }
}

/// What is wrong with a command line.
#[derive(Debug)]
pub enum UsageError {
    TooManyArguments,
    UnknownOption(String),
    MissingFilename,
}

impl View for UsageError {
    type V = UsageErrorView;

    open spec fn view(&self) -> UsageErrorView {
        match self {
            UsageError::TooManyArguments => UsageErrorView::TooManyArguments,
            UsageError::UnknownOption(s) => UsageErrorView::UnknownOption(s@),
            UsageError::MissingFilename => UsageErrorView::MissingFilename,
        }
    }
}

impl UsageErrorView {
    /// The text that tells the user.
    pub open spec fn message(self) -> Seq<char> {
        match self {
            UsageErrorView::TooManyArguments => "lz: too many arguments"@,
            UsageErrorView::UnknownOption(s) => "lz: unknown option: "@ + s,
            UsageErrorView::MissingFilename => "lz: missing filename (use '-' for stdin)"@,
        }
    }
}

impl UsageError {
    /// The text that tells the user.
    pub fn message(&self) -> (r: String)
        ensures
            r@ == self@.message(),
    {
        match self {
            UsageError::TooManyArguments => "lz: too many arguments".to_owned(),
            UsageError::UnknownOption(s) => {
                let mut m = "lz: unknown option: ".to_owned();
                m.push_str(s);
                m
            },
            UsageError::MissingFilename => {
                "lz: missing filename (use '-' for stdin)".to_owned()
            },
        }
    }
}

/// Add a file name; there can be only one.
fn take_file(args: &mut Args, name: &str) -> (r: Result<(), UsageError>)
    ensures
        match r {
            Ok(()) => with_file(old(args)@, name@) == Ok::<ArgsView, UsageErrorView>(
                final(args)@,
            ),
            Err(e) => with_file(old(args)@, name@) == Err::<ArgsView, UsageErrorView>(e@),
        },
{
    if args.filename.is_some() {
        return Err(UsageError::TooManyArguments);
    }
    args.filename = Some(name.to_owned());
    Ok(())
}

/// Whether an argument begins with a hyphen.
fn is_option(arg: &str) -> (r: bool)
    ensures
        r == (arg@.len() > 0 && arg@[0] == '-'),
{
    let chars = text::chars_of(arg);
    chars.len() > 0 && chars[0] == '-'
}

/// Add an argument that comes before any `--`.
fn take_arg(args: &mut Args, arg: &str) -> (r: Result<(), UsageError>)
    ensures
        match r {
            Ok(()) => with_arg(old(args)@, arg@) == Ok::<ArgsView, UsageErrorView>(final(args)@),
            Err(e) => with_arg(old(args)@, arg@) == Err::<ArgsView, UsageErrorView>(e@),
        },
{
    if text::same_text(arg, "-") {
        args.stdin_explicit = true;
    } else if text::same_text(arg, "--follow") {
        args.follow = true;
    } else if text::same_text(arg, "--force") {
        args.force = true;
    } else if text::same_text(arg, "-r") || text::same_text(arg, "--raw") {
        args.raw_mode = true;
    } else if text::same_text(arg, "--help") || text::same_text(arg, "-h") {
        args.help = true;
    } else if text::same_text(arg, "--version") || text::same_text(arg, "-V") {
        args.version = true;
    } else if is_option(arg) {
        return Err(UsageError::UnknownOption(arg.to_owned()));
    } else {
        return take_file(args, arg);
    }
    Ok(())
}

/// Read the command line: the arguments after the program's name.
pub fn parse_args(argv: &Vec<String>) -> (r: Result<Args, UsageError>)
    ensures
        match r {
            Ok(args) => with_all(no_args(), text::texts(argv@), false) == Ok::<
                ArgsView,
                UsageErrorView,
            >(args@),
            Err(e) => with_all(no_args(), text::texts(argv@), false) == Err::<
                ArgsView,
                UsageErrorView,
            >(e@),
        },
{
    let mut args = Args {
        follow: false,
        force: false,
        raw_mode: false,
        filename: None,
        stdin_explicit: false,
        help: false,
        version: false,
    };
    let ghost all = text::texts(argv@);
    let n: usize = argv.len();
    let mut only_files: bool = false;
    let mut i: usize = 0;
    assert(all.skip(0) =~= all);
    assert(args@ =~= no_args());
    while i < n
        invariant
            i <= n,
            n == argv@.len(),
            all == text::texts(argv@),
            with_all(no_args(), all, false) == with_all(args@, all.skip(i as int), only_files),
        decreases n - i,
    {
        let ghost rest = all.skip(i as int);
        assert(rest[0] == argv@[i as int]@);
        assert(rest.skip(1) =~= all.skip(i + 1));
        let arg = argv[i].as_str();
        if !only_files && text::same_text(arg, "--") {
            only_files = true;
        } else {
            let taken = if only_files {
                take_file(&mut args, arg)
            } else {
                take_arg(&mut args, arg)
            };
            if let Err(e) = taken {
                return Err(e);
            }
        }
        i = i + 1;
    }
    assert(all.skip(n as int).len() == 0);
    Ok(args)
}

/// What to do on account of a command line.
pub enum Plan {
    ShowHelp,
    ShowVersion,
    /// View the standard input.
    Stdin,
    /// View a file.
    File(String),
}

/// What to do. The standard input is viewed where no file is named or `-` asks for
/// it; a terminal has to be asked for.
pub fn plan(args: &Args, stdin_is_tty: bool) -> (r: Result<Plan, UsageError>)
    ensures
        match r {
            Ok(Plan::ShowHelp) => args@.help,
            Ok(Plan::ShowVersion) => !args@.help && args@.version,
            Ok(Plan::Stdin) => {
                &&& !args@.help && !args@.version
                &&& args@.stdin_explicit || (args@.filename is None && !stdin_is_tty)
            },
            Ok(Plan::File(name)) => {
                &&& !args@.help && !args@.version
                &&& !args@.stdin_explicit && args@.filename == Some(name@)
            },
            Err(e) => {
                &&& e@ is MissingFilename
                &&& !args@.help && !args@.version
                &&& !args@.stdin_explicit && args@.filename is None && stdin_is_tty
            },
        },
{
    if args.help {
        return Ok(Plan::ShowHelp);
    }
    if args.version {
        return Ok(Plan::ShowVersion);
    }
    if args.stdin_explicit {
        return Ok(Plan::Stdin);
    }
    match &args.filename {
        Some(name) => Ok(Plan::File(name.clone())),
        None => {
            if stdin_is_tty {
                Err(UsageError::MissingFilename)
            } else {
                Ok(Plan::Stdin)
            }
        },
    }
}

/// What `String::from_utf8_lossy` makes of bytes: their text, with U+FFFD in place
/// of what is not valid.
pub uninterp spec fn lossy(bytes: Seq<u8>) -> Seq<char>;

/// Calls `String::from_utf8_lossy`. Besides naming the result, this claims that
/// valid UTF-8 comes out as it is.
#[verifier::external_body]
fn lossy_text(bytes: &[u8]) -> (r: String)
    ensures
        r@ == lossy(bytes@),
        valid_utf8(bytes@) ==> r@ == decode_utf8(bytes@),
{
    String::from_utf8_lossy(bytes).to_string()
}

/// The text that bytes stand for.
pub open spec fn text_in(bytes: Seq<u8>) -> Seq<char> {
    if valid_utf8(bytes) {
        decode_utf8(bytes)
    } else {
        lossy(bytes)
    }
}

/// One past the last line feed of `bytes`; 0 if there is none.
pub open spec fn whole_lines(bytes: Seq<u8>) -> int
    decreases bytes.len(),
{
    if bytes.len() == 0 {
        0
    } else if bytes.last() == 10 {
        bytes.len() as int
    } else {
        whole_lines(bytes.drop_last())
    }
}

/// How much of the first bytes of the standard input is made into lines at once: the
/// lines that are complete. With `force` none are: all bytes are read as they come.
pub open spec fn head_used(head: Seq<u8>, force: bool) -> int {
    if force {
        0
    } else {
        whole_lines(head)
    }
}

/// The buffer that the standard input begins with.
pub open spec fn stdin_buffer(head: Seq<u8>, force: bool) -> buffer::BufferView {
    buffer::BufferView {
        lines: buffer::prepared_lines(text_in(head.take(head_used(head, force)))),
        has_source: true,
        finished: false,
    }
}

/// The end of the complete lines is within the bytes, just after a line feed.
proof fn lemma_whole_lines(bytes: Seq<u8>)
    ensures
        0 <= whole_lines(bytes) <= bytes.len(),
        whole_lines(bytes) > 0 ==> bytes[whole_lines(bytes) - 1] == 10,
    decreases bytes.len(),
{
    if bytes.len() > 0 && bytes.last() != 10 {
        lemma_whole_lines(bytes.drop_last());
    }
}

/// The place after a line feed is between characters.
proof fn lemma_after_line_feed(bytes: Seq<u8>, k: int)
    requires
        valid_utf8(bytes),
        0 < k <= bytes.len(),
        bytes[k - 1] == 10,
    ensures
        is_char_boundary(bytes, k),
{
    if k == bytes.len() {
        is_char_boundary_start_end_of_seq(bytes);
    } else {
        is_char_boundary_iff_not_is_continuation_byte(bytes, k - 1);
        valid_utf8_split(bytes, k - 1);
        let rest = bytes.subrange(k - 1, bytes.len() as int);
        assert(rest[0] == 10);
        assert(rest[1] == bytes[k]);
        assert(is_char_boundary(pop_first_scalar(rest), 0));
        assert(is_char_boundary(rest, 1));
        is_char_boundary_iff_not_is_continuation_byte(rest, 1);
        is_char_boundary_iff_not_is_continuation_byte(bytes, k);
    }
}

/// A text whose bytes end with a line feed ends with one.
proof fn lemma_last_line_feed(s: Seq<char>)
    requires
        encode_utf8(s).len() > 0,
        encode_utf8(s).last() == 10,
    ensures
        s.len() > 0,
        s.last() == '\n',
{
    assert(s.len() > 0);
    let c = s.last();
    let v = c as u32;
    assert(s =~= s.drop_last() + seq![c]);
    text::lemma_encode_concat(s.drop_last(), seq![c]);
    text::lemma_encode_one(c);
    char_is_scalar(c);
    encode_utf8_first_scalar(seq![c]);
    assert(encode_scalar(v).last() == 10);
    assert(0x80u8 | (v & 0x3f) as u8 >= 0x80) by (bit_vector);
    assert(v <= 0x7f ==> (v & 0x7f) as u8 == v) by (bit_vector);
    if v <= 0x7f {
        assert(encode_scalar(v)[0] == v);
        char_u32_cast(c, v);
        char_u32_cast('\n', v);
    } else {
        assert(encode_scalar(v).last() == last_continuation_byte(v));
        assert(last_continuation_byte(v) >= 0x80);
    }
}

/// What is left of an input after its first `k` bytes.
pub open spec fn input_from(input: Seq<char>, k: int) -> Seq<char> {
    decode_utf8(encode_utf8(input).skip(k))
}

/// The lines of the standard input do not depend on how much of it was read first:
/// once the end was seen, the buffer holds the lines of the whole input, and before
/// that the first of them. (Lines over `MAX_LINE_LEN` bytes are left out.)
pub proof fn law_stdin_lines(
    input: Seq<char>,
    head: Seq<u8>,
    force: bool,
    reads: Seq<buffer::ReadOutcome>,
)
    requires
        head.is_prefix_of(encode_utf8(input)),
        buffer::first_reads(reads, input_from(input, head_used(head, force))),
        forall|i: int|
            0 <= i < text::lines_of(input, false).len() ==> encode_utf8(
                #[trigger] text::lines_of(input, false)[i],
            ).len() <= buffer::MAX_LINE_LEN,
    ensures
        ({
            let v = stdin_buffer(head, force).after(reads);
            let all = text::lines_of(input, false);
            &&& v.lines.is_prefix_of(all)
            &&& v.finished ==> v.lines == all
        }),
{
    let bytes = encode_utf8(input);
    let k = head_used(head, force);
    lemma_whole_lines(head);
    encode_utf8_valid_utf8(input);
    encode_utf8_decode_utf8(input);
    is_char_boundary_start_end_of_seq(bytes);
    assert(head =~= bytes.take(head.len() as int));
    if k > 0 {
        assert(bytes[k - 1] == head[k - 1]);
        lemma_after_line_feed(bytes, k);
    }
    valid_utf8_split(bytes, k);
    decode_utf8_split(bytes, k);
    let front = bytes.subrange(0, k);
    assert(head.take(k) =~= front);
    assert(bytes.skip(k) =~= bytes.subrange(k, bytes.len() as int));
    let a = decode_utf8(front);
    let b = input_from(input, k);
    decode_utf8_encode_utf8(front);
    if k > 0 {
        assert(front.last() == 10);
        lemma_last_line_feed(a);
    } else {
        assert(front.len() == 0);
    }
    assert(input =~= a + b);
    text::lemma_lines_concat(a, b, true, false);
    let before = text::lines_of(a, true);
    let after = text::lines_of(b, false);
    let all = text::lines_of(input, false);
    assert forall|i: int| 0 <= i < after.len() implies encode_utf8(#[trigger] after[i]).len()
        <= buffer::MAX_LINE_LEN by {
        assert(all[before.len() + i] == after[i]);
    }
    buffer::law_short_lines(b);
    let start = stdin_buffer(head, force);
    buffer::lemma_read_from(start, reads, b);
    let n = buffer::lines_read(reads).len() as int;
    assert(before + after.take(n) =~= all.take(before.len() + n));
}

/// The buffer for the standard input, of which `head` was read first, and the bytes of
/// that which come before what is read next; `None` if the input is empty, or why it
/// cannot be viewed.
pub fn open_stdin(head: &[u8], force: bool) -> (r: Result<
    Option<(buffer::LineBuffer, Vec<u8>)>,
    String,
>)
    ensures
        match r {
            Ok(Some((lb, rest))) => {
                &&& head@.len() > 0
                &&& force || !buffer::is_binary(head@)
                &&& lb@ == stdin_buffer(head@, force)
                &&& rest@ == head@.skip(head_used(head@, force))
            },
            Ok(None) => head@.len() == 0,
            Err(e) => {
                &&& !force && head@.len() > 0 && buffer::is_binary(head@)
                &&& e@ == "Binary content detected. Use --force to view."@
            },
        },
{
    if head.len() == 0 {
        return Ok(None);
    }
    if !force && buffer::LineBuffer::check_binary(head) {
        return Err("Binary content detected. Use --force to view.".to_owned());
    }
    let mut k: usize = if force {
        0
    } else {
        head.len()
    };
    assert(head@.take(head@.len() as int) =~= head@);
    while k > 0 && head[k - 1] != 10
        invariant
            k <= head@.len(),
            force ==> k == 0,
            !force ==> whole_lines(head@.take(k as int)) == whole_lines(head@),
        decreases k,
    {
        assert(head@.take(k as int).drop_last() =~= head@.take(k - 1));
        k = k - 1;
    }
    assert(k == head_used(head@, force)) by {
        let t = head@.take(k as int);
        if k > 0 {
            assert(t.last() == head@[k - 1]);
        }
    }
    let mut lb = buffer::LineBuffer::from_source();
    let used = vstd::slice::slice_subrange(head, 0, k);
    assert(used@ =~= head@.take(k as int));
    let prefix = lossy_text(used);
    buffer::prepopulate_buffer(&mut lb, &prefix);
    assert(lb@.lines =~= buffer::prepared_lines(text_in(used@)));
    let mut rest: Vec<u8> = Vec::new();
    rest.extend_from_slice(vstd::slice::slice_subrange(head, k, head.len()));
    assert(rest@ =~= head@.skip(k as int));
    Ok(Some((lb, rest)))
}

/// The line that the bytes of one stand for, which may hold what is not valid. No
/// bytes are the end of the input.
pub fn line_of_bytes(bytes: &[u8]) -> (r: buffer::ReadOutcome)
    ensures
        match r {
            buffer::ReadOutcome::Line(s) => bytes@.len() > 0 && s@ == text_in(bytes@),
            buffer::ReadOutcome::Eof => bytes@.len() == 0,
            buffer::ReadOutcome::Failed => false,
        },
{
    if bytes.len() == 0 {
        buffer::ReadOutcome::Eof
    } else {
        buffer::ReadOutcome::Line(lossy_text(bytes))
    }
}

/// The buffer for a file of `size` bytes that starts with `head`; `None` if it is
/// empty, or why it cannot be viewed.
pub fn open_file(head: &[u8], size: u64, force: bool) -> (r: Result<
    Option<buffer::LineBuffer>,
    String,
>)
    ensures
        match r {
            Ok(Some(lb)) => {
                &&& force || !buffer::is_binary(head@)
                &&& size > 0
                &&& lb@ == (buffer::BufferView {
                    lines: Seq::empty(),
                    has_source: true,
                    finished: false,
                })
            },
            Ok(None) => (force || !buffer::is_binary(head@)) && size == 0,
            Err(e) => {
                &&& !force && buffer::is_binary(head@)
                &&& e@ == "Binary file detected. Use --force to view."@
            },
        },
{
    if !force && buffer::LineBuffer::check_binary(head) {
        return Err("Binary file detected. Use --force to view.".to_owned());
    }
    if size == 0 {
        return Ok(None);
    }
    Ok(Some(buffer::LineBuffer::from_source()))
}

/// The directory that state is kept in: `XDG_STATE_HOME`, or one in the home
/// directory.
pub open spec fn state_dir(xdg_state_home: Option<Seq<char>>, home: Option<Seq<char>>) -> Seq<
    char,
> {
    match (xdg_state_home, home) {
        (Some(dir), _) => dir,
        (None, Some(h)) => h + "/.local/state"@,
        (None, None) => "~"@ + "/.local/state"@,
    }
}

/// A path in a directory.
pub open spec fn joined(dir: Seq<char>, path: Seq<char>) -> Seq<char> {
    if dir.len() == 0 || dir.last() == '/' {
        dir + path
    } else {
        dir + "/"@ + path
    }
}

/// The text of a string that may be missing.
pub open spec fn opt_text(s: Option<&str>) -> Option<Seq<char>> {
    match s {
        Some(t) => Some(t@),
        None => None,
    }
}

/// Where the search history is kept, given the values of the variables
/// `XDG_STATE_HOME` and `HOME`.
pub fn history_path(xdg_state_home: Option<&str>, home: Option<&str>) -> (r: String)
    ensures
        r@ == joined(state_dir(opt_text(xdg_state_home), opt_text(home)), "lz/history"@),
{
    let mut path: String = match xdg_state_home {
        Some(dir) => dir.to_owned(),
        None => {
            let mut p: String = match home {
                Some(h) => h.to_owned(),
                None => "~".to_owned(),
            };
            p.push_str("/.local/state");
            p
        },
    };
    let chars = text::chars_of(&path);
    let n: usize = chars.len();
    if n > 0 && chars[n - 1] != '/' {
        path.push_str("/");
    }
    path.push_str("lz/history");
    path
}

/// An argument more adds to what the others say, unless one of them is wrong.
proof fn lemma_one_more(args: ArgsView, rest: Seq<Seq<char>>, only_files: bool, arg: Seq<char>)
    ensures
        with_all(args, rest.push(arg), only_files) == match with_all(args, rest, only_files) {
            Err(e) => Err(e),
            Ok(a) => with_all(a, seq![arg], only_files || rest.contains("--"@)),
        },
    decreases rest.len(),
{
    let all = rest.push(arg);
    if rest.len() == 0 {
        assert(all =~= seq![arg]);
    } else {
        let tail = rest.skip(1);
        assert(all[0] == rest[0]);
        assert(all.skip(1) =~= tail.push(arg));
        assert(rest.contains("--"@) <==> rest[0] == "--"@ || tail.contains("--"@)) by {
            if rest.contains("--"@) {
                let i = choose|i: int| 0 <= i < rest.len() && rest[i] == "--"@;
                if i > 0 {
                    assert(tail[i - 1] == "--"@);
                }
            }
            if tail.contains("--"@) {
                let i = choose|i: int| 0 <= i < tail.len() && tail[i] == "--"@;
                assert(rest[i + 1] == "--"@);
            }
            if rest[0] == "--"@ {
                assert(rest.contains(rest[0]));
            }
        }
        if !only_files && rest[0] == "--"@ {
            lemma_one_more(args, tail, true, arg);
        } else {
            let next = if only_files {
                with_file(args, rest[0])
            } else {
                with_arg(args, rest[0])
            };
            if let Ok(a) = next {
                lemma_one_more(a, tail, only_files, arg);
            }
        }
    }
}

/// What a command line says, argument by argument: the first that is wrong decides; each
/// option sets what it is for and nothing else; there is one file at most, and after
/// `--` all arguments are files.
#[verifier::rlimit(50)]
#[verifier::spinoff_prover]
pub proof fn law_args(argv: Seq<Seq<char>>, arg: Seq<char>)
    ensures
        with_all(no_args(), Seq::empty(), false) == Ok::<ArgsView, UsageErrorView>(
            ArgsView {
                follow: false,
                force: false,
                raw_mode: false,
                filename: None,
                stdin_explicit: false,
                help: false,
                version: false,
            },
        ),
        ({
            let more = with_all(no_args(), argv.push(arg), false);
            match with_all(no_args(), argv, false) {
                Err(e) => more == Err::<ArgsView, UsageErrorView>(e),
                Ok(a) => {
                    let file = if a.filename is Some {
                        Err(UsageErrorView::TooManyArguments)
                    } else {
                        Ok(ArgsView { filename: Some(arg), ..a })
                    };
                    if argv.contains("--"@) {
                        more == file
                    } else if arg == "--"@ {
                        more == Ok::<ArgsView, UsageErrorView>(a)
                    } else if arg == "-"@ {
                        more == Ok::<ArgsView, UsageErrorView>(
                            ArgsView { stdin_explicit: true, ..a },
                        )
                    } else if arg == "--follow"@ {
                        more == Ok::<ArgsView, UsageErrorView>(ArgsView { follow: true, ..a })
                    } else if arg == "--force"@ {
                        more == Ok::<ArgsView, UsageErrorView>(ArgsView { force: true, ..a })
                    } else if arg == "--raw"@ || arg == "-r"@ {
                        more == Ok::<ArgsView, UsageErrorView>(ArgsView { raw_mode: true, ..a })
                    } else if arg == "--help"@ || arg == "-h"@ {
                        more == Ok::<ArgsView, UsageErrorView>(ArgsView { help: true, ..a })
                    } else if arg == "--version"@ || arg == "-V"@ {
                        more == Ok::<ArgsView, UsageErrorView>(ArgsView { version: true, ..a })
                    } else if arg.len() > 0 && arg[0] == '-' {
                        more == Err::<ArgsView, UsageErrorView>(UsageErrorView::UnknownOption(arg))
                    } else {
                        more == file
                    }
                },
            }
        }),
{
    lemma_one_more(no_args(), argv, false, arg);
    reveal_with_fuel(with_all, 2);
    assert(seq![arg].skip(1) =~= Seq::<Seq<char>>::empty());
    reveal_strlit("-");
    reveal_strlit("--");
    reveal_strlit("-r");
    reveal_strlit("-h");
    reveal_strlit("-V");
    reveal_strlit("--raw");
    reveal_strlit("--help");
    reveal_strlit("--force");
    reveal_strlit("--follow");
    reveal_strlit("--version");
}

/// How much of the first bytes makes complete lines: up to the last line feed.
pub proof fn law_whole_lines(bytes: Seq<u8>)
    ensures
        ({
            let k = whole_lines(bytes);
            &&& 0 <= k <= bytes.len()
            &&& k > 0 ==> bytes[k - 1] == 10
            &&& forall|i: int| k <= i < bytes.len() ==> #[trigger] bytes[i] != 10
        }),
        head_used(bytes, true) == 0,
        head_used(bytes, false) == whole_lines(bytes),
    decreases bytes.len(),
{
    if bytes.len() > 0 && bytes.last() != 10 {
        let init = bytes.drop_last();
        law_whole_lines(init);
        assert forall|i: int| whole_lines(bytes) <= i < bytes.len() implies #[trigger] bytes[i]
            != 10 by {
            if i < init.len() {
                assert(init[i] == bytes[i]);
            }
        }
    }
}

/// Where the search history is kept: below the directory for state, if that is set, and
/// else below the home directory.
pub proof fn law_history_path(dir: Seq<char>, home: Option<Seq<char>>)
    ensures
        dir.len() > 0 && dir.last() != '/' ==> joined(state_dir(Some(dir), home), "lz/history"@)
            == dir + "/lz/history"@,
        dir.len() > 0 && dir.last() == '/' ==> joined(state_dir(Some(dir), home), "lz/history"@)
            == dir + "lz/history"@,
        joined(state_dir(None, Some(dir)), "lz/history"@) == dir + "/.local/state/lz/history"@,
        joined(state_dir(None, None), "lz/history"@) == "~/.local/state/lz/history"@,
{
    reveal_strlit("/");
    reveal_strlit("~");
    reveal_strlit("lz/history");
    reveal_strlit("/lz/history");
    reveal_strlit("/.local/state");
    reveal_strlit("/.local/state/lz/history");
    reveal_strlit("~/.local/state/lz/history");
    assert(dir + "/"@ + "lz/history"@ =~= dir + "/lz/history"@);
    let below = dir + "/.local/state"@;
    assert(below.last() == 'e');
    assert(below + "/"@ + "lz/history"@ =~= dir + "/.local/state/lz/history"@);
    let tilde = "~"@ + "/.local/state"@;
    assert(tilde.last() == 'e');
    assert(tilde + "/"@ + "lz/history"@ =~= "~/.local/state/lz/history"@);
}

/// What is said of a wrong command line.
pub proof fn law_messages(option: Seq<char>)
    ensures
        UsageErrorView::UnknownOption(option).message() == "lz: unknown option: "@ + option,
        UsageErrorView::TooManyArguments.message() == "lz: too many arguments"@,
        UsageErrorView::MissingFilename.message() == "lz: missing filename (use '-' for stdin)"@,
{
}

/// The text of valid bytes is the one that they encode; of others, what is left of it
/// with marks in place of what is not valid.
pub proof fn law_text_in(text: Seq<char>, bytes: Seq<u8>)
    ensures
        text_in(encode_utf8(text)) == text,
        !valid_utf8(bytes) ==> text_in(bytes) == lossy(bytes),
{
    encode_utf8_valid_utf8(text);
    encode_utf8_decode_utf8(text);
}

} // verus!
