//! The command-line surface: tokenizing an argument list into a normalized
//! request (one command, zero or more scope paths, a verbosity flag).
//!
//! The arguments arrive as plain strings; resolving them against the
//! filesystem (canonicalization) is the caller's business.  `spec_parse_args`
//! gives the whole grammar; the executable parser is proved to match it.

use vstd::prelude::*;
use vstd::string::StrSliceExecFns;
use vstd::string::StringExecFns;
use vstd::utf8::encode_utf8;

use crate::mutate::Command;

verus! {

/// Everything argument parsing can reject.
#[derive(Clone, Copy, PartialEq, Eq, Structural, Debug)]
pub enum CliError {
    /// A path option came last, with no path after it.
    MissingPathArgument,
    /// An argument starting with `--` that is no known flag.
    UnknownFlag,
    /// A delete/complete flag with no position after it.
    MissingIndex,
    /// A position that does not read as an unsigned integer.
    InvalidIndex,
    /// Arguments left over after a position.
    UnexpectedArguments,
}

/// One normalized invocation: verbosity, raw scope paths (not yet
/// canonicalized), and the selected command.
pub struct Cli {
    pub verbose: bool,
    pub paths: Vec<String>,
    pub command: Command,
}

/// Character views of a sequence of strings.
pub open spec fn str_views(s: Seq<String>) -> Seq<Seq<char>> {
    s.map_values(|x: String| x@)
}

/// The mathematical image of a `Command`.
pub ghost enum CommandView {
    Add(Seq<u8>),
    Delete(int),
    Complete(int),
    Show,
}

pub open spec fn command_view(c: Command) -> CommandView {
    match c {
        Command::AddItem { message } => CommandView::Add(message@),
        Command::DeleteItem { index } => CommandView::Delete(index as int),
        Command::CompleteItem { index } => CommandView::Complete(index as int),
        Command::ShowItems => CommandView::Show,
    }
}

pub open spec fn digit_char(c: char) -> bool {
    48 <= c as int && c as int <= 57
}

pub open spec fn all_digit_chars(s: Seq<char>) -> bool {
    forall|i: int| 0 <= i < s.len() ==> digit_char(#[trigger] s[i])
}

/// Value of a digit string, most significant first.
pub open spec fn char_digits_val(s: Seq<char>) -> int
    decreases s.len(),
{
    if s.len() == 0 {
        0
    } else {
        char_digits_val(s.drop_last()) * 10 + (s.last() as int - 48)
    }
}

/// The digits of a position argument: an optional leading `+` is allowed,
/// as the usual integer parsing accepts it.
pub open spec fn index_body(s: Seq<char>) -> Seq<char> {
    if s.len() >= 1 && s[0] == '+' {
        s.drop_first()
    } else {
        s
    }
}

/// A position argument is valid when, after an optional `+`, it is one or
/// more decimal digits whose value fits the platform's word.
pub open spec fn spec_parse_usize(s: Seq<char>) -> Option<int> {
    let b = index_body(s);
    if b.len() > 0 && all_digit_chars(b) && char_digits_val(b) <= usize::MAX {
        Some(char_digits_val(b))
    } else {
        None
    }
}

proof fn lemma_char_val_nonneg(s: Seq<char>)
    requires
        all_digit_chars(s),
    ensures
        char_digits_val(s) >= 0,
    decreases s.len(),
{
    if s.len() > 0 {
        assert(all_digit_chars(s.drop_last()));
        lemma_char_val_nonneg(s.drop_last());
    }
}

/// A digit string is worth at least any of its prefixes.
proof fn lemma_char_val_prefix(s: Seq<char>, k: int)
    requires
        all_digit_chars(s),
        0 <= k <= s.len(),
    ensures
        char_digits_val(s.take(k)) <= char_digits_val(s),
    decreases s.len() - k,
{
    if k == s.len() {
        assert(s.take(k) =~= s);
    } else {
        assert(s.take(k + 1).drop_last() =~= s.take(k));
        assert(all_digit_chars(s.take(k)));
        lemma_char_val_nonneg(s.take(k));
        lemma_char_val_prefix(s, k + 1);
    }
}

fn char_digit(c: char) -> (r: Option<u8>)
    ensures
        match r {
            Some(d) => digit_char(c) && d as int == c as int - 48,
            None => !digit_char(c),
        },
{
    let u = c as u32;
    if 48 <= u && u <= 57 {
        Some((u - 48) as u8)
    } else {
        None
    }
}

/// Reads a 1-based position from one argument string, exactly as
/// `spec_parse_usize` describes.
pub fn parse_usize(s: &String) -> (r: Option<usize>)
    ensures
        match r {
            Some(v) => spec_parse_usize(s@) == Some(v as int),
            None => spec_parse_usize(s@) is None,
        },
{
    let st = s.as_str();
    let n = st.unicode_len();
    let off: usize = if n >= 1 && st.get_char(0) == '+' {
        1
    } else {
        0
    };
    let ghost body = index_body(s@);
    proof {
        assert(body =~= s@.subrange(off as int, n as int));
    }
    if n == off {
        return None;
    }
    let mut acc: usize = 0;
    let mut i: usize = off;
    while i < n
        invariant
            off <= i <= n,
            st@ == s@,
            n == s@.len(),
            off <= 1,
            body == s@.subrange(off as int, n as int),
            body == index_body(s@),
            n - off == body.len(),
            all_digit_chars(body.take(i - off)),
            acc == char_digits_val(body.take(i - off)),
        decreases n - i,
    {
        let c = st.get_char(i);
        proof {
            assert(body[i - off] == s@[i as int]);
        }
        match char_digit(c) {
            None => {
                proof {
                    assert(!digit_char(body[i - off]));
                    assert(!all_digit_chars(body));
                }
                return None;
            },
            Some(d) => {
                let dv: usize = d as usize;
                proof {
                    vstd::arithmetic::div_mod::lemma_fundamental_div_mod(
                        (usize::MAX - dv) as int,
                        10,
                    );
                    vstd::arithmetic::div_mod::lemma_mod_bound((usize::MAX - dv) as int, 10);
                    assert(body.take(i - off + 1).drop_last() =~= body.take(i - off));
                    assert(body.take(i - off + 1).last() == body[i - off]);
                    assert(all_digit_chars(body.take(i - off + 1)));
                }
                if acc > (usize::MAX - dv) / 10 {
                    proof {
                        assert(char_digits_val(body.take(i - off + 1)) > usize::MAX);
                        if all_digit_chars(body) {
                            lemma_char_val_prefix(body, i - off + 1);
                        }
                    }
                    return None;
                }
                assert(acc * 10 + dv <= usize::MAX);
                acc = acc * 10 + dv;
                i = i + 1;
            },
        }
    }
    proof {
        assert(body.take(n - off) =~= body);
    }
    Some(acc)
}

/// The position after a delete/complete flag: the next argument, which must
/// parse as an unsigned integer.
pub open spec fn spec_index_at(args: Seq<Seq<char>>, pos: int) -> Result<int, CliError> {
    if pos >= args.len() {
        Err(CliError::MissingIndex)
    } else {
        match spec_parse_usize(args[pos]) {
            Some(v) => Ok(v),
            None => Err(CliError::InvalidIndex),
        }
    }
}

/// As `spec_index_at`, and the position must be the last argument.
pub open spec fn spec_tail_index(args: Seq<Seq<char>>, pos: int) -> Result<int, CliError> {
    match spec_index_at(args, pos) {
        Ok(v) => if pos + 1 == args.len() {
            Ok(v)
        } else {
            Err(CliError::UnexpectedArguments)
        },
        Err(e) => Err(e),
    }
}

/// Reads the position argument at `pos`.
pub fn parse_index(args: &Vec<String>, pos: usize) -> (r: Result<usize, CliError>)
    ensures
        match r {
            Ok(v) => spec_index_at(str_views(args@), pos as int) == Ok::<int, CliError>(v as int),
            Err(e) => spec_index_at(str_views(args@), pos as int) == Err::<int, CliError>(e),
        },
{
    if pos >= args.len() {
        return Err(CliError::MissingIndex);
    }
    proof {
        assert(str_views(args@)[pos as int] == args@[pos as int]@);
    }
    match parse_usize(&args[pos]) {
        Some(v) => Ok(v),
        None => Err(CliError::InvalidIndex),
    }
}

/// Words joined by single spaces.
pub open spec fn join_spaces(ws: Seq<Seq<char>>) -> Seq<char>
    decreases ws.len(),
{
    if ws.len() == 0 {
        Seq::empty()
    } else if ws.len() == 1 {
        ws[0]
    } else {
        join_spaces(ws.drop_last()) + seq![' '] + ws.last()
    }
}

/// Joins the trailing words into an add command; the message bytes are the
/// UTF-8 encoding of the words joined by single spaces.
pub fn parse_message_command(args: &Vec<String>, start: usize) -> (c: Command)
    requires
        start <= args@.len(),
    ensures
        c matches Command::AddItem { message } && message@ == encode_utf8(
            join_spaces(str_views(args@).subrange(start as int, args@.len() as int)),
        ),
{
    let ghost all = str_views(args@);
    let mut msg = String::new();
    let mut k: usize = start;
    proof {
        assert(all.subrange(start as int, start as int) =~= Seq::<Seq<char>>::empty());
    }
    while k < args.len()
        invariant
            start <= k <= args@.len(),
            all == str_views(args@),
            msg@ == join_spaces(all.subrange(start as int, k as int)),
        decreases args@.len() - k,
    {
        proof {
            reveal_strlit(" ");
            assert(" "@ =~= seq![' ']);
        }
        if k > start {
            msg.append(" ");
        }
        msg.append(args[k].as_str());
        k = k + 1;
        proof {
            let prev = all.subrange(start as int, k - 1);
            let cur = all.subrange(start as int, k as int);
            assert(cur =~= prev.push(all[k - 1]));
            assert(cur.drop_last() =~= prev);
            assert(all[k - 1] == args@[k - 1]@);
            if prev.len() == 0 {
                assert(msg@ =~= join_spaces(cur));
            } else {
                assert(msg@ =~= join_spaces(cur));
            }
        }
    }
    let bytes = msg.as_str().as_bytes_vec();
    Command::AddItem { message: bytes }
}

/// A delete command: one position, nothing after it.
pub fn parse_delete_command(args: &Vec<String>, pos: usize) -> (r: Result<Command, CliError>)
    ensures
        match r {
            Ok(c) => spec_tail_index(str_views(args@), pos as int) matches Ok(v)
                && command_view(c) == CommandView::Delete(v),
            Err(e) => spec_tail_index(str_views(args@), pos as int) == Err::<int, CliError>(e),
        },
{
    match parse_index(args, pos) {
        Err(e) => Err(e),
        Ok(v) => {
            if pos < args.len() && pos + 1 == args.len() {
                Ok(Command::DeleteItem { index: v })
            } else {
                Err(CliError::UnexpectedArguments)
            }
        },
    }
}

/// A complete command: one position, nothing after it.
pub fn parse_complete_command(args: &Vec<String>, pos: usize) -> (r: Result<Command, CliError>)
    ensures
        match r {
            Ok(c) => spec_tail_index(str_views(args@), pos as int) matches Ok(v)
                && command_view(c) == CommandView::Complete(v),
            Err(e) => spec_tail_index(str_views(args@), pos as int) == Err::<int, CliError>(e),
        },
{
    match parse_index(args, pos) {
        Err(e) => Err(e),
        Ok(v) => {
            if pos < args.len() && pos + 1 == args.len() {
                Ok(Command::CompleteItem { index: v })
            } else {
                Err(CliError::UnexpectedArguments)
            }
        },
    }
}

/// No arguments left: plain listing.
pub fn parse_show_command() -> (c: Command)
    ensures
        c == Command::ShowItems,
{
    Command::ShowItems
}

/// The whole grammar, from argument `i` on, with the flags seen so far.
pub open spec fn spec_parse_args(
    args: Seq<Seq<char>>,
    i: int,
    verbose: bool,
    paths: Seq<Seq<char>>,
) -> Result<(bool, Seq<Seq<char>>, CommandView), CliError>
    decreases args.len() - i,
{
    if i >= args.len() {
        Ok((verbose, paths, CommandView::Show))
    } else {
        let a = args[i];
        if a == "--verbose"@ || a == "-v"@ {
            spec_parse_args(args, i + 1, true, paths)
        } else if a == "--path"@ || a == "-p"@ {
            if i + 1 < args.len() {
                spec_parse_args(args, i + 2, verbose, paths.push(args[i + 1]))
            } else {
                Err(CliError::MissingPathArgument)
            }
        } else if a == "--delete"@ || a == "-d"@ {
            match spec_tail_index(args, i + 1) {
                Ok(v) => Ok((verbose, paths, CommandView::Delete(v))),
                Err(e) => Err(e),
            }
        } else if a == "--complete"@ || a == "-c"@ {
            match spec_tail_index(args, i + 1) {
                Ok(v) => Ok((verbose, paths, CommandView::Complete(v))),
                Err(e) => Err(e),
            }
        } else if a.len() >= 2 && a[0] == '-' && a[1] == '-' {
            Err(CliError::UnknownFlag)
        } else {
            Ok(
                (
                    verbose,
                    paths,
                    CommandView::Add(encode_utf8(join_spaces(args.subrange(i, args.len() as int)))),
                ),
            )
        }
    }
}

/// The parsed request matches the grammar's verdict.
pub open spec fn cli_matches(
    r: Result<Cli, CliError>,
    sp: Result<(bool, Seq<Seq<char>>, CommandView), CliError>,
) -> bool {
    match r {
        Ok(cli) => {
            &&& sp is Ok
            &&& cli.verbose == sp->Ok_0.0
            &&& str_views(cli.paths@) == sp->Ok_0.1
            &&& command_view(cli.command) == sp->Ok_0.2
        },
        Err(e) => sp == Err::<(bool, Seq<Seq<char>>, CommandView), CliError>(e),
    }
}

fn str_eq(a: &String, b: &String) -> (r: bool)
    ensures
        r == (a@ == b@),
{
    a.eq(b)
}

fn starts_double_dash(a: &String) -> (r: bool)
    ensures
        r == (a@.len() >= 2 && a@[0] == '-' && a@[1] == '-'),
{
    let st = a.as_str();
    let n = st.unicode_len();
    if n < 2 {
        false
    } else {
        st.get_char(0) == '-' && st.get_char(1) == '-'
    }
}

fn parse_args_from(args: &Vec<String>, i: usize, verbose: bool, paths: Vec<String>) -> (r: Result<
    Cli,
    CliError,
>)
    requires
        i <= args@.len(),
    ensures
        cli_matches(r, spec_parse_args(str_views(args@), i as int, verbose, str_views(paths@))),
    decreases args@.len() - i,
{
    let ghost sv = str_views(args@);
    let ghost pv = str_views(paths@);
    if i >= args.len() {
        return Ok(Cli { verbose, paths, command: parse_show_command() });
    }
    proof {
        assert(sv[i as int] == args@[i as int]@);
    }
    let lit_verbose = String::from_str("--verbose");
    let lit_v = String::from_str("-v");
    let lit_path = String::from_str("--path");
    let lit_p = String::from_str("-p");
    let lit_delete = String::from_str("--delete");
    let lit_d = String::from_str("-d");
    let lit_complete = String::from_str("--complete");
    let lit_c = String::from_str("-c");
    let a = &args[i];
    if str_eq(a, &lit_verbose) || str_eq(a, &lit_v) {
        parse_args_from(args, i + 1, true, paths)
    } else if str_eq(a, &lit_path) || str_eq(a, &lit_p) {
        if i + 1 < args.len() {
            let mut paths2 = paths;
            paths2.push(args[i + 1].clone());
            proof {
                assert(str_views(paths2@) =~= pv.push(sv[i + 1]));
            }
            parse_args_from(args, i + 2, verbose, paths2)
        } else {
            Err(CliError::MissingPathArgument)
        }
    } else if str_eq(a, &lit_delete) || str_eq(a, &lit_d) {
        match parse_delete_command(args, i + 1) {
            Ok(c) => Ok(Cli { verbose, paths, command: c }),
            Err(e) => Err(e),
        }
    } else if str_eq(a, &lit_complete) || str_eq(a, &lit_c) {
        match parse_complete_command(args, i + 1) {
            Ok(c) => Ok(Cli { verbose, paths, command: c }),
            Err(e) => Err(e),
        }
    } else if starts_double_dash(a) {
        Err(CliError::UnknownFlag)
    } else {
        let c = parse_message_command(args, i);
        Ok(Cli { verbose, paths, command: c })
    }
}

/// Tokenizes an argument list (the executable's name already stripped) into
/// one normalized request, exactly as `spec_parse_args` describes.
pub fn parse_args(args: &Vec<String>) -> (r: Result<Cli, CliError>)
    ensures
        cli_matches(
            r,
            spec_parse_args(str_views(args@), 0, false, Seq::<Seq<char>>::empty()),
        ),
{
    let paths: Vec<String> = Vec::new();
    proof {
        assert(str_views(paths@) =~= Seq::<Seq<char>>::empty());
    }
    parse_args_from(args, 0, false, paths)
}

} // verus!
