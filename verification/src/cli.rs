//! The command line: which operation a line of tokens asks for.

use vstd::prelude::*;
use vstd::string::StringExecFns;

use crate::decimal::{parse_decimal, parse_u64};
use crate::json::{text_equal, texts_view};
use crate::types::{ops_view, BatchOp, BatchOpView};

verus! {

/// The operations of the command line.
#[derive(Clone, Copy, Debug, PartialEq, Eq, Structural)]
pub enum Verb {
    Put,
    PutEx,
    Get,
    Del,
    Compact,
    Snapshot,
    Restore,
    Find,
    Batch,
    ScanAll,
    ScanPrefix,
    ScanRange,
    Stats,
    Eval,
    EvalSha,
    ScriptLoad,
    ScriptBegin,
    ScriptList,
    ScriptRun,
    ScriptRename,
    ScriptRemove,
    JsonSet,
    JsonGet,
    ListPush,
    Show,
    SetAdd,
    HashSet,
    HashGet,
    HashDel,
    HashGetAll,
    ListLPush,
    ListRPush,
    ListLPop,
    ListRPop,
    ListRange,
    ListLen,
    Exit,
    Usage,
}

/// A line of tokens read as a command: the operation, and the tokens after
/// the words that name it.
pub struct Command {
    pub verb: Verb,
    pub operands: Vec<String>,
}

/// The line starts with `word` and has `n` tokens.
pub open spec fn is_line(args: Seq<Seq<char>>, word: Seq<char>, n: int) -> bool {
    args.len() == n && args[0] == word
}

/// The line starts with `first` and `second` and has `n` tokens.
pub open spec fn is_line2(args: Seq<Seq<char>>, first: Seq<char>, second: Seq<char>, n: int) -> bool {
    args.len() == n && args[0] == first && args[1] == second
}

/// The operation that a line asks for. Each operation has its words and
/// its number of tokens; `batch`, `eval`, `evalsha` and `script` `load`,
/// `begin` and `run` take any number of further tokens. A line that is
/// none of these asks for the usage text.
pub open spec fn verb_of(args: Seq<Seq<char>>) -> Verb {
    if args.len() == 0 {
        Verb::Usage
    } else if is_line(args, "put"@, 3) {
        Verb::Put
    } else if is_line(args, "putex"@, 4) {
        Verb::PutEx
    } else if is_line(args, "get"@, 2) {
        Verb::Get
    } else if is_line(args, "del"@, 2) {
        Verb::Del
    } else if is_line(args, "compact"@, 1) {
        Verb::Compact
    } else if is_line(args, "snapshot"@, 2) {
        Verb::Snapshot
    } else if is_line(args, "restore"@, 2) {
        Verb::Restore
    } else if is_line(args, "find"@, 3) {
        Verb::Find
    } else if args[0] == "batch"@ {
        Verb::Batch
    } else if is_line(args, "scan"@, 1) {
        Verb::ScanAll
    } else if is_line(args, "scan"@, 2) {
        Verb::ScanPrefix
    } else if is_line(args, "scan"@, 3) {
        Verb::ScanRange
    } else if is_line(args, "stats"@, 1) {
        Verb::Stats
    } else if args[0] == "eval"@ {
        Verb::Eval
    } else if args.len() >= 2 && args[0] == "evalsha"@ {
        Verb::EvalSha
    } else if args.len() >= 4 && args[0] == "script"@ && args[1] == "load"@ {
        Verb::ScriptLoad
    } else if args.len() >= 3 && args[0] == "script"@ && args[1] == "begin"@ {
        Verb::ScriptBegin
    } else if is_line2(args, "script"@, "list"@, 2) {
        Verb::ScriptList
    } else if args.len() >= 3 && args[0] == "script"@ && args[1] == "run"@ {
        Verb::ScriptRun
    } else if is_line2(args, "script"@, "rename"@, 4) {
        Verb::ScriptRename
    } else if is_line2(args, "script"@, "remove"@, 3) {
        Verb::ScriptRemove
    } else if is_line2(args, "json"@, "set"@, 5) {
        Verb::JsonSet
    } else if is_line2(args, "json"@, "get"@, 4) {
        Verb::JsonGet
    } else if is_line2(args, "list"@, "push"@, 4) {
        Verb::ListPush
    } else if is_line2(args, "list"@, "show"@, 3) || is_line2(args, "set"@, "show"@, 3) {
        Verb::Show
    } else if is_line2(args, "set"@, "add"@, 4) {
        Verb::SetAdd
    } else if is_line2(args, "hash"@, "set"@, 5) {
        Verb::HashSet
    } else if is_line2(args, "hash"@, "get"@, 4) {
        Verb::HashGet
    } else if is_line2(args, "hash"@, "del"@, 4) {
        Verb::HashDel
    } else if is_line2(args, "hash"@, "getall"@, 3) {
        Verb::HashGetAll
    } else if is_line2(args, "list"@, "lpush"@, 4) {
        Verb::ListLPush
    } else if is_line2(args, "list"@, "rpush"@, 4) {
        Verb::ListRPush
    } else if is_line2(args, "list"@, "lpop"@, 3) {
        Verb::ListLPop
    } else if is_line2(args, "list"@, "rpop"@, 3) {
        Verb::ListRPop
    } else if is_line2(args, "list"@, "range"@, 5) {
        Verb::ListRange
    } else if is_line2(args, "list"@, "len"@, 3) {
        Verb::ListLen
    } else if is_line(args, "exit"@, 1) || is_line(args, "quit"@, 1) {
        Verb::Exit
    } else {
        Verb::Usage
    }
}

/// How many words name the operation.
pub open spec fn verb_width(verb: Verb) -> int {
    match verb {
        Verb::Usage => 0,
        Verb::Put | Verb::PutEx | Verb::Get | Verb::Del | Verb::Compact | Verb::Snapshot
        | Verb::Restore | Verb::Find | Verb::Batch | Verb::ScanAll | Verb::ScanPrefix
        | Verb::ScanRange | Verb::Stats | Verb::Eval | Verb::EvalSha | Verb::Exit => 1,
        _ => 2,
    }
}

fn width(verb: Verb) -> (r: usize)
    ensures
        r == verb_width(verb),
{
    match verb {
        Verb::Usage => 0,
        Verb::Put | Verb::PutEx | Verb::Get | Verb::Del | Verb::Compact | Verb::Snapshot
        | Verb::Restore | Verb::Find | Verb::Batch | Verb::ScanAll | Verb::ScanPrefix
        | Verb::ScanRange | Verb::Stats | Verb::Eval | Verb::EvalSha | Verb::Exit => 1,
        _ => 2,
    }
}

fn line(args: &Vec<String>, word: &str, n: usize) -> (r: bool)
    requires
        args@.len() > 0,
    ensures
        r == is_line(texts_view(args@), word@, n as int),
{
    args.len() == n && text_equal(args[0].as_str(), word)
}

fn line2(args: &Vec<String>, first: &str, second: &str, n: usize) -> (r: bool)
    requires
        args@.len() > 0,
        n >= 2,
    ensures
        r == is_line2(texts_view(args@), first@, second@, n as int),
{
    args.len() == n && text_equal(args[0].as_str(), first) && text_equal(
        args[1].as_str(),
        second,
    )
}

fn starts(args: &Vec<String>, first: &str, second: &str, least: usize) -> (r: bool)
    requires
        args@.len() > 0,
        least >= 2,
    ensures
        r == (texts_view(args@).len() >= least && texts_view(args@)[0] == first@ && texts_view(
            args@,
        )[1] == second@),
{
    args.len() >= least && text_equal(args[0].as_str(), first) && text_equal(
        args[1].as_str(),
        second,
    )
}

fn verb(args: &Vec<String>) -> (r: Verb)
    ensures
        r == verb_of(texts_view(args@)),
{
    if args.len() == 0 {
        return Verb::Usage;
    }
    let head = args[0].as_str();
    proof {
        assert(texts_view(args@)[0] == head@);
    }
    if line(args, "put", 3) {
        Verb::Put
    } else if line(args, "putex", 4) {
        Verb::PutEx
    } else if line(args, "get", 2) {
        Verb::Get
    } else if line(args, "del", 2) {
        Verb::Del
    } else if line(args, "compact", 1) {
        Verb::Compact
    } else if line(args, "snapshot", 2) {
        Verb::Snapshot
    } else if line(args, "restore", 2) {
        Verb::Restore
    } else if line(args, "find", 3) {
        Verb::Find
    } else if text_equal(head, "batch") {
        Verb::Batch
    } else if line(args, "scan", 1) {
        Verb::ScanAll
    } else if line(args, "scan", 2) {
        Verb::ScanPrefix
    } else if line(args, "scan", 3) {
        Verb::ScanRange
    } else if line(args, "stats", 1) {
        Verb::Stats
    } else if text_equal(head, "eval") {
        Verb::Eval
    } else if args.len() >= 2 && text_equal(head, "evalsha") {
        Verb::EvalSha
    } else if starts(args, "script", "load", 4) {
        Verb::ScriptLoad
    } else if starts(args, "script", "begin", 3) {
        Verb::ScriptBegin
    } else if line2(args, "script", "list", 2) {
        Verb::ScriptList
    } else if starts(args, "script", "run", 3) {
        Verb::ScriptRun
    } else if line2(args, "script", "rename", 4) {
        Verb::ScriptRename
    } else if line2(args, "script", "remove", 3) {
        Verb::ScriptRemove
    } else if line2(args, "json", "set", 5) {
        Verb::JsonSet
    } else if line2(args, "json", "get", 4) {
        Verb::JsonGet
    } else if line2(args, "list", "push", 4) {
        Verb::ListPush
    } else if line2(args, "list", "show", 3) || line2(args, "set", "show", 3) {
        Verb::Show
    } else if line2(args, "set", "add", 4) {
        Verb::SetAdd
    } else if line2(args, "hash", "set", 5) {
        Verb::HashSet
    } else if line2(args, "hash", "get", 4) {
        Verb::HashGet
    } else if line2(args, "hash", "del", 4) {
        Verb::HashDel
    } else if line2(args, "hash", "getall", 3) {
        Verb::HashGetAll
    } else if line2(args, "list", "lpush", 4) {
        Verb::ListLPush
    } else if line2(args, "list", "rpush", 4) {
        Verb::ListRPush
    } else if line2(args, "list", "lpop", 3) {
        Verb::ListLPop
    } else if line2(args, "list", "rpop", 3) {
        Verb::ListRPop
    } else if line2(args, "list", "range", 5) {
        Verb::ListRange
    } else if line2(args, "list", "len", 3) {
        Verb::ListLen
    } else if line(args, "exit", 1) || line(args, "quit", 1) {
        Verb::Exit
    } else {
        Verb::Usage
    }
}

/// Reads a line of tokens as a command.
pub fn parse_command(args: &Vec<String>) -> (r: Command)
    ensures
        r.verb == verb_of(texts_view(args@)),
        texts_view(r.operands@) == texts_view(args@).skip(verb_width(r.verb)),
{
    let verb = verb(args);
    let from = width(verb);
    let mut operands: Vec<String> = Vec::new();
    let mut i: usize = from;
    let ghost all = texts_view(args@);
    proof {
        assert(texts_view(operands@) =~= all.subrange(from as int, from as int));
    }
    while i < args.len()
        invariant
            from <= i <= args.len(),
            all == texts_view(args@),
            texts_view(operands@) == all.subrange(from as int, i as int),
        decreases args.len() - i,
    {
        let ghost before = texts_view(operands@);
        operands.push(args[i].clone());
        proof {
            assert(texts_view(operands@) =~= before.push(all[i as int]));
            assert(all.subrange(from as int, i + 1) =~= all.subrange(from as int, i as int).push(
                all[i as int],
            ));
        }
        i += 1;
    }
    proof {
        assert(all.subrange(from as int, all.len() as int) =~= all.skip(from as int));
    }
    Command { verb, operands }
}

/// The time to live that a token gives, if it is a decimal number.
pub fn parse_ttl(token: &str) -> (r: Option<u64>)
    ensures
        r == parse_decimal(vstd::utf8::encode_utf8(token@)),
{
    parse_u64(token.as_bytes())
}

/// The number that an index token writes: an optional sign, then decimal
/// digits, the whole within `isize`. Anything else has no value.
pub open spec fn index_value(token: Seq<u8>) -> Option<int> {
    if token.len() > 0 && token[0] == 45 {
        match parse_decimal(token.skip(1)) {
            Some(n) => if token.len() > 1 && token[1] != 43 && n <= isize::MAX + 1 {
                Some(-(n as int))
            } else {
                None
            },
            None => None,
        }
    } else {
        match parse_decimal(token) {
            Some(n) => if n <= isize::MAX {
                Some(n as int)
            } else {
                None
            },
            None => None,
        }
    }
}

/// The list index that a token gives; a token that is no number counts as 0.
pub fn parse_index(token: &str) -> (r: isize)
    ensures
        r == match index_value(vstd::utf8::encode_utf8(token@)) {
            Some(n) => n,
            None => 0,
        },
{
    let bytes = token.as_bytes();
    if bytes.len() > 0 && bytes[0] == 45 {
        let rest = crate::bytes::slice_copy(bytes, 1, bytes.len());
        proof {
            assert(rest@ =~= bytes@.skip(1));
        }
        if rest.len() > 0 && rest[0] == 43 {
            return 0;
        }
        match parse_u64(rest.as_slice()) {
            Some(n) => {
                if n <= isize::MAX as u64 {
                    -(n as isize)
                } else if n == isize::MAX as u64 + 1 {
                    isize::MIN
                } else {
                    0
                }
            },
            None => 0,
        }
    } else {
        match parse_u64(bytes) {
            Some(n) => {
                if n <= isize::MAX as u64 {
                    n as isize
                } else {
                    0
                }
            },
            None => 0,
        }
    }
}

/// The mutations that the tokens after `batch` name, and how many tokens
/// were read: `put key value` and `del key`, one after another. A token
/// that is neither `put` nor `del` is passed over; reading stops where a
/// `put` or `del` lacks its operands.
pub open spec fn batch_of(tokens: Seq<Seq<char>>, from: int) -> Seq<BatchOpView>
    decreases tokens.len() - from,
{
    if from < 0 || from >= tokens.len() {
        Seq::empty()
    } else if tokens[from] == "put"@ {
        if from + 2 < tokens.len() {
            seq![BatchOpView::Put(tokens[from + 1], tokens[from + 2])] + batch_of(tokens, from + 3)
        } else {
            Seq::empty()
        }
    } else if tokens[from] == "del"@ {
        if from + 1 < tokens.len() {
            seq![BatchOpView::Del(tokens[from + 1])] + batch_of(tokens, from + 2)
        } else {
            Seq::empty()
        }
    } else {
        batch_of(tokens, from + 1)
    }
}

/// The mutations that the tokens after `batch` name.
pub fn parse_batch(tokens: &Vec<String>) -> (r: Vec<BatchOp>)
    ensures
        ops_view(r@) == batch_of(texts_view(tokens@), 0),
{
    let mut ops: Vec<BatchOp> = Vec::new();
    let mut i: usize = 0;
    let ghost all = texts_view(tokens@);
    proof {
        assert(ops_view(ops@) + batch_of(all, 0) =~= batch_of(all, 0));
    }
    while i < tokens.len()
        invariant
            i <= tokens.len(),
            all == texts_view(tokens@),
            batch_of(all, 0) == ops_view(ops@) + batch_of(all, i as int),
        decreases tokens.len() - i,
    {
        let ghost done = ops_view(ops@);
        let ghost rest = batch_of(all, i as int);
        proof {
            assert(all[i as int] == tokens@[i as int]@);
        }
        if text_equal(tokens[i].as_str(), "put") {
            if tokens.len() - i <= 2 {
                proof {
                    assert(done + rest =~= done);
                }
                return ops;
            }
            ops.push(BatchOp::Put(tokens[i + 1].clone(), tokens[i + 2].clone()));
            proof {
                let op = BatchOpView::Put(all[i + 1], all[i + 2]);
                assert(ops_view(ops@) =~= done.push(op));
                assert(done + (seq![op] + batch_of(all, i + 3)) =~= done.push(op) + batch_of(
                    all,
                    i + 3,
                ));
            }
            i += 3;
        } else if text_equal(tokens[i].as_str(), "del") {
            if tokens.len() - i <= 1 {
                proof {
                    assert(done + rest =~= done);
                }
                return ops;
            }
            ops.push(BatchOp::Del(tokens[i + 1].clone()));
            proof {
                let op = BatchOpView::Del(all[i + 1]);
                assert(ops_view(ops@) =~= done.push(op));
                assert(done + (seq![op] + batch_of(all, i + 2)) =~= done.push(op) + batch_of(
                    all,
                    i + 2,
                ));
            }
            i += 2;
        } else {
            i += 1;
        }
    }
    proof {
        assert(ops_view(ops@) + Seq::<BatchOpView>::empty() =~= ops_view(ops@));
    }
    ops
}

/// The tokens joined with one space between neighbours.
pub open spec fn spaced(tokens: Seq<Seq<char>>) -> Seq<char>
    decreases tokens.len(),
{
    if tokens.len() == 0 {
        Seq::empty()
    } else if tokens.len() == 1 {
        tokens[0]
    } else {
        spaced(tokens.drop_last()) + " "@ + tokens.last()
    }
}

/// The tokens joined with one space between neighbours: the source of a
/// script given on the command line, or a description.
pub fn join_tokens(tokens: &Vec<String>) -> (r: String)
    ensures
        r@ == spaced(texts_view(tokens@)),
{
    let mut out = String::new();
    let mut i: usize = 0;
    let ghost all = texts_view(tokens@);
    proof {
        assert(all.take(0) =~= Seq::<Seq<char>>::empty());
    }
    while i < tokens.len()
        invariant
            i <= tokens.len(),
            all == texts_view(tokens@),
            out@ == spaced(all.take(i as int)),
        decreases tokens.len() - i,
    {
        proof {
            assert(all.take(i + 1).drop_last() =~= all.take(i as int));
            assert(all.take(i + 1).last() == tokens@[i as int]@);
        }
        if i > 0 {
            out.append(" ");
        }
        out.append(tokens[i].as_str());
        proof {
            if i == 0 {
                assert(out@ =~= tokens@[0]@);
            }
        }
        i += 1;
    }
    proof {
        assert(all.take(i as int) =~= all);
    }
    out
}

/// Position of the first `--` among the tokens, or their number.
pub open spec fn divider(tokens: Seq<Seq<char>>) -> int
    decreases tokens.len(),
{
    if tokens.len() == 0 || tokens[0] == "--"@ {
        0
    } else {
        1 + divider(tokens.skip(1))
    }
}

/// The tokens before the first `--` and those after it: the keys and the
/// arguments of a script. Tokens after a second `--` belong to neither.
pub open spec fn keys_and_args(tokens: Seq<Seq<char>>) -> (Seq<Seq<char>>, Seq<Seq<char>>) {
    let d = divider(tokens);
    if 0 <= d < tokens.len() {
        let rest = tokens.skip(d + 1);
        (tokens.take(d), rest.take(divider(rest)))
    } else {
        (tokens, Seq::empty())
    }
}

fn find_divider(tokens: &Vec<String>, from: usize) -> (r: usize)
    requires
        from <= tokens.len(),
    ensures
        from <= r <= tokens.len(),
        r - from == divider(texts_view(tokens@).skip(from as int)),
    decreases tokens.len() - from,
{
    let ghost rest = texts_view(tokens@).skip(from as int);
    if from >= tokens.len() {
        return from;
    }
    proof {
        assert(rest[0] == tokens@[from as int]@);
        assert(rest.skip(1) =~= texts_view(tokens@).skip(from + 1));
    }
    if text_equal(tokens[from].as_str(), "--") {
        from
    } else {
        find_divider(tokens, from + 1)
    }
}

fn copy_tokens(tokens: &Vec<String>, from: usize, to: usize) -> (r: Vec<String>)
    requires
        from <= to <= tokens.len(),
    ensures
        texts_view(r@) == texts_view(tokens@).subrange(from as int, to as int),
{
    let mut out: Vec<String> = Vec::new();
    let mut i: usize = from;
    let ghost all = texts_view(tokens@);
    proof {
        assert(texts_view(out@) =~= all.subrange(from as int, from as int));
    }
    while i < to
        invariant
            from <= i <= to <= tokens.len(),
            all == texts_view(tokens@),
            texts_view(out@) == all.subrange(from as int, i as int),
        decreases to - i,
    {
        let ghost before = texts_view(out@);
        out.push(tokens[i].clone());
        proof {
            assert(texts_view(out@) =~= before.push(all[i as int]));
            assert(all.subrange(from as int, i + 1) =~= all.subrange(from as int, i as int).push(
                all[i as int],
            ));
        }
        i += 1;
    }
    out
}

/// The keys and the arguments of a script among the tokens.
pub fn split_keys_args(tokens: &Vec<String>) -> (r: (Vec<String>, Vec<String>))
    ensures
        (texts_view(r.0@), texts_view(r.1@)) == keys_and_args(texts_view(tokens@)),
{
    let ghost all = texts_view(tokens@);
    proof {
        assert(all.skip(0) =~= all);
    }
    let d = find_divider(tokens, 0);
    if d >= tokens.len() {
        let keys = copy_tokens(tokens, 0, tokens.len());
        let args: Vec<String> = Vec::new();
        proof {
            assert(all.subrange(0, all.len() as int) =~= all);
            assert(texts_view(args@) =~= Seq::<Seq<char>>::empty());
        }
        return (keys, args);
    }
    let e = find_divider(tokens, d + 1);
    let keys = copy_tokens(tokens, 0, d);
    let args = copy_tokens(tokens, d + 1, e);
    proof {
        let rest = all.skip(d + 1);
        assert(all.subrange(0, d as int) =~= all.take(d as int));
        assert(all.subrange(d + 1, e as int) =~= rest.take(e - d - 1));
    }
    (keys, args)
}

} // verus!
