use slackbase::cli::{
    join_tokens, parse_batch, parse_command, parse_index, parse_ttl, split_keys_args, Verb,
};
use slackbase::types::BatchOp;

fn toks(line: &str) -> Vec<String> {
    line.split_whitespace().map(|s| s.to_string()).collect()
}

fn verb(line: &str) -> Verb {
    parse_command(&toks(line)).verb
}

fn operands(line: &str) -> Vec<String> {
    parse_command(&toks(line)).operands
}

#[test]
fn commands_of_the_base_store() {
    assert_eq!(verb("put k v"), Verb::Put);
    assert_eq!(operands("put k v"), toks("k v"));
    assert_eq!(verb("putex k v 10"), Verb::PutEx);
    assert_eq!(operands("putex k v 10"), toks("k v 10"));
    assert_eq!(verb("get k"), Verb::Get);
    assert_eq!(verb("del k"), Verb::Del);
    assert_eq!(verb("compact"), Verb::Compact);
    assert_eq!(verb("snapshot file"), Verb::Snapshot);
    assert_eq!(verb("restore file"), Verb::Restore);
    assert_eq!(verb("find name Alice"), Verb::Find);
    assert_eq!(verb("stats"), Verb::Stats);
    assert_eq!(verb("exit"), Verb::Exit);
    assert_eq!(verb("quit"), Verb::Exit);
}

#[test]
fn scan_takes_nothing_a_prefix_or_a_range() {
    assert_eq!(verb("scan"), Verb::ScanAll);
    assert_eq!(verb("scan user:"), Verb::ScanPrefix);
    assert_eq!(operands("scan user:"), toks("user:"));
    assert_eq!(verb("scan a z"), Verb::ScanRange);
    assert_eq!(operands("scan a z"), toks("a z"));
    assert_eq!(verb("scan a b c"), Verb::Usage);
}

#[test]
fn commands_with_a_tail_take_any_number_of_tokens() {
    assert_eq!(verb("batch"), Verb::Batch);
    assert_eq!(verb("batch put x 10 del y"), Verb::Batch);
    assert_eq!(operands("batch put x 10 del y"), toks("put x 10 del y"));
    assert_eq!(verb("eval"), Verb::Eval);
    assert_eq!(verb("eval return 1 + 2"), Verb::Eval);
    assert_eq!(operands("eval return 1 + 2"), toks("return 1 + 2"));
    assert_eq!(verb("evalsha abc k1 -- a1"), Verb::EvalSha);
    assert_eq!(operands("evalsha abc k1 -- a1"), toks("abc k1 -- a1"));
    assert_eq!(verb("evalsha"), Verb::Usage);
}

#[test]
fn script_commands() {
    assert_eq!(verb("script load f.lua name a description"), Verb::ScriptLoad);
    assert_eq!(operands("script load f.lua name a description"), toks("f.lua name a description"));
    assert_eq!(verb("script load f.lua"), Verb::Usage);
    assert_eq!(verb("script begin name"), Verb::ScriptBegin);
    assert_eq!(verb("script list"), Verb::ScriptList);
    assert_eq!(verb("script run name k -- a"), Verb::ScriptRun);
    assert_eq!(verb("script rename old new"), Verb::ScriptRename);
    assert_eq!(verb("script remove name"), Verb::ScriptRemove);
    assert_eq!(verb("script"), Verb::Usage);
    assert_eq!(verb("script list all"), Verb::Usage);
}

#[test]
fn composite_commands() {
    assert_eq!(verb("json set k f v"), Verb::JsonSet);
    assert_eq!(operands("json set k f v"), toks("k f v"));
    assert_eq!(verb("json get k f"), Verb::JsonGet);
    assert_eq!(verb("list push k v"), Verb::ListPush);
    assert_eq!(verb("list show k"), Verb::Show);
    assert_eq!(verb("set show k"), Verb::Show);
    assert_eq!(verb("set add k v"), Verb::SetAdd);
    assert_eq!(verb("hash set k f v"), Verb::HashSet);
    assert_eq!(verb("hash get k f"), Verb::HashGet);
    assert_eq!(verb("hash del k f"), Verb::HashDel);
    assert_eq!(verb("hash getall k"), Verb::HashGetAll);
    assert_eq!(verb("list lpush k v"), Verb::ListLPush);
    assert_eq!(verb("list rpush k v"), Verb::ListRPush);
    assert_eq!(verb("list lpop k"), Verb::ListLPop);
    assert_eq!(verb("list rpop k"), Verb::ListRPop);
    assert_eq!(verb("list range k 0 -1"), Verb::ListRange);
    assert_eq!(operands("list range k 0 -1"), toks("k 0 -1"));
    assert_eq!(verb("list len k"), Verb::ListLen);
}

#[test]
fn anything_else_asks_for_the_usage() {
    assert_eq!(verb(""), Verb::Usage);
    assert_eq!(verb("put k"), Verb::Usage);
    assert_eq!(verb("put k v extra"), Verb::Usage);
    assert_eq!(verb("PUT k v"), Verb::Usage);
    assert_eq!(verb("get"), Verb::Usage);
    assert_eq!(verb("list"), Verb::Usage);
    assert_eq!(verb("hash set k f"), Verb::Usage);
    assert_eq!(verb("exit now"), Verb::Usage);
    assert!(operands("nonsense here").len() == 2);
}

#[test]
fn ttl_is_a_decimal_number() {
    assert_eq!(parse_ttl("0"), Some(0));
    assert_eq!(parse_ttl("3600"), Some(3600));
    assert_eq!(parse_ttl("+7"), Some(7));
    assert_eq!(parse_ttl("18446744073709551615"), Some(u64::MAX));
    assert_eq!(parse_ttl("18446744073709551616"), None);
    assert_eq!(parse_ttl("-1"), None);
    assert_eq!(parse_ttl("1h"), None);
    assert_eq!(parse_ttl(""), None);
}

#[test]
fn index_is_a_signed_number_or_zero() {
    assert_eq!(parse_index("0"), 0);
    assert_eq!(parse_index("5"), 5);
    assert_eq!(parse_index("+5"), 5);
    assert_eq!(parse_index("-1"), -1);
    assert_eq!(parse_index("-0"), 0);
    assert_eq!(parse_index("-007"), -7);
    assert_eq!(parse_index("9223372036854775807"), isize::MAX);
    assert_eq!(parse_index("-9223372036854775808"), isize::MIN);
    assert_eq!(parse_index("9223372036854775808"), 0);
    assert_eq!(parse_index("-9223372036854775809"), 0);
    assert_eq!(parse_index("abc"), 0);
    assert_eq!(parse_index(""), 0);
    assert_eq!(parse_index("-"), 0);
    assert_eq!(parse_index("-+5"), 0);
    assert_eq!(parse_index("--5"), 0);
    assert_eq!(parse_index("1.5"), 0);
}

#[test]
fn batch_tokens_name_puts_and_dels() {
    let ops = parse_batch(&toks("put x 10 put y 20 del x"));
    assert_eq!(ops.len(), 3);
    assert!(matches!(&ops[0], BatchOp::Put(k, v) if k == "x" && v == "10"));
    assert!(matches!(&ops[1], BatchOp::Put(k, v) if k == "y" && v == "20"));
    assert!(matches!(&ops[2], BatchOp::Del(k) if k == "x"));
    assert!(parse_batch(&toks("")).is_empty());
}

#[test]
fn batch_passes_over_unknown_tokens_and_stops_at_a_short_operation() {
    let ops = parse_batch(&toks("bogus del a what put b"));
    assert_eq!(ops.len(), 1);
    assert!(matches!(&ops[0], BatchOp::Del(k) if k == "a"));
    let ops = parse_batch(&toks("put a 1 del"));
    assert_eq!(ops.len(), 1);
    let ops = parse_batch(&toks("put put put del del"));
    assert_eq!(ops.len(), 2);
    assert!(matches!(&ops[0], BatchOp::Put(k, v) if k == "put" && v == "put"));
    assert!(matches!(&ops[1], BatchOp::Del(k) if k == "del"));
}

#[test]
fn tokens_are_joined_with_single_spaces() {
    assert_eq!(join_tokens(&toks("return  1 +   2")), "return 1 + 2");
    assert_eq!(join_tokens(&toks("one")), "one");
    assert_eq!(join_tokens(&toks("")), "");
}

#[test]
fn keys_and_args_are_divided_by_two_dashes() {
    assert_eq!(split_keys_args(&toks("k1 k2 -- a1 a2")), (toks("k1 k2"), toks("a1 a2")));
    assert_eq!(split_keys_args(&toks("k1 k2")), (toks("k1 k2"), toks("")));
    assert_eq!(split_keys_args(&toks("-- a1")), (toks(""), toks("a1")));
    assert_eq!(split_keys_args(&toks("k1 --")), (toks("k1"), toks("")));
    assert_eq!(split_keys_args(&toks("k1 -- a1 -- lost")), (toks("k1"), toks("a1")));
    assert_eq!(split_keys_args(&toks("")), (toks(""), toks("")));
}
