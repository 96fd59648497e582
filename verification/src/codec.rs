//! The line-framed JSON form of the wire protocol. One message per line,
//! UTF-8, no length prefix. Every message kind has exactly one canonical
//! rendering, given by the `enc_*` spec functions; the encoder produces it
//! and the parser accepts it and nothing else, so what cannot be parsed was
//! not produced by any peer speaking this protocol.

use vstd::prelude::*;

use crate::json::{
    append_string, append_usize, digit_delim, enc_at, enc_str, enc_u64, exec_digit_val,
    exec_hex_char, exec_is_digit, expect_lit, hex_char, lemma_char_eq, lemma_enc_at_join,
    lemma_enc_at_split, lemma_enc_u64_shape, lemma_hex_char_inj, parse_string, parse_usize,
    push_char, str_to_chars,
};
use crate::protocol::{
    Action, ActionV, Match, MatchAction, MatchActionV, MatchV, Message, MessageV, Metadata,
    MetadataV, Method, MethodResult, MethodResultV, MethodV, Score,
};

verus! {

// ===== the canonical renderings =====

pub open spec fn enc_bool(b: bool) -> Seq<char> {
    if b {
        "true"@
    } else {
        "false"@
    }
}

pub open spec fn enc_opt_str(o: Option<Seq<char>>) -> Seq<char> {
    match o {
        Option::None => "null"@,
        Option::Some(s) => enc_str(s),
    }
}

/// A score in thousandths renders as a decimal fraction with exactly three
/// digits after the point: `850` becomes `0.850`.
pub open spec fn enc_score(n: u32) -> Seq<char> {
    enc_u64(n as int / 1000) + seq!['.'] + seq![
        hex_char((n as int % 1000) / 100),
        hex_char((n as int % 1000) / 10 % 10),
        hex_char((n as int % 1000) % 10),
    ]
}

/// Comma-separated items, each rendered by `f`.
pub open spec fn enc_items<T>(l: Seq<T>, f: spec_fn(T) -> Seq<char>) -> Seq<char>
    decreases l.len(),
{
    if l.len() == 0 {
        Seq::empty()
    } else if l.len() == 1 {
        f(l[0])
    } else {
        f(l[0]) + seq![','] + enc_items(l.drop_first(), f)
    }
}

/// A JSON array of items rendered by `f`.
pub open spec fn enc_list<T>(l: Seq<T>, f: spec_fn(T) -> Seq<char>) -> Seq<char> {
    seq!['['] + enc_items(l, f) + seq![']']
}

/// A JSON array of strings.
pub open spec fn enc_args(v: Seq<Seq<char>>) -> Seq<char> {
    enc_list(v, |s: Seq<char>| enc_str(s))
}

/// One `"key":"value"` member.
pub open spec fn enc_param(p: (Seq<char>, Seq<char>)) -> Seq<char> {
    enc_str(p.0) + seq![':'] + enc_str(p.1)
}

/// A JSON object of string-to-string members, in list order.
pub open spec fn enc_params(l: Seq<(Seq<char>, Seq<char>)>) -> Seq<char> {
    seq!['{'] + enc_items(l, |p: (Seq<char>, Seq<char>)| enc_param(p)) + seq!['}']
}

/// The members a method contributes to its envelope: a tag and, where the
/// variant carries data, a `params` member.
pub open spec fn enc_method_flat(m: MethodV) -> Seq<char> {
    match m {
        MethodV::Search(q) => "\"method\":\"search\",\"params\":"@ + enc_str(q),
        MethodV::Activate(mi, ai) => "\"method\":\"activate\",\"params\":["@ + enc_u64(mi as int)
            + seq![','] + enc_u64(ai as int) + seq![']'],
        MethodV::CallAction(k, ps) => "\"method\":\"call_action\",\"params\":["@ + enc_str(k)
            + seq![','] + enc_params(ps) + seq![']'],
        MethodV::Cancel => "\"method\":\"cancel\""@,
        MethodV::Quit => "\"method\":\"quit\""@,
    }
}

pub open spec fn enc_action(a: ActionV) -> Seq<char> {
    match a {
        ActionV::Exec { command, args } => "{\"type\":\"exec\",\"command\":"@ + enc_str(command)
            + ",\"args\":"@ + enc_args(args) + seq!['}'],
        ActionV::Launch { app_id, args, new_instance } => "{\"type\":\"launch\",\"app_id\":"@
            + enc_str(app_id) + ",\"args\":"@ + enc_args(args)
            + ",\"new_instance\":"@ + enc_bool(new_instance) + seq!['}'],
        ActionV::Open { uri } => "{\"type\":\"open\",\"uri\":"@ + enc_str(uri) + seq!['}'],
        ActionV::Clipboard { text } => "{\"type\":\"clipboard\",\"text\":"@ + enc_str(text)
            + seq!['}'],
        ActionV::Callback { key, params } => "{\"type\":\"callback\",\"key\":"@ + enc_str(key)
            + ",\"params\":"@ + enc_params(params) + seq!['}'],
    }
}

pub open spec fn enc_match_action(ma: MatchActionV) -> Seq<char> {
    "{\"title\":"@ + enc_str(ma.title) + ",\"action\":"@ + enc_action(ma.action)
        + ",\"close_on_action\":"@ + enc_bool(ma.close_on_action) + seq!['}']
}

/// A JSON array of a match's actions.
pub open spec fn enc_match_actions(v: Seq<MatchActionV>) -> Seq<char> {
    enc_list(v, |a: MatchActionV| enc_match_action(a))
}

pub open spec fn enc_match(m: MatchV) -> Seq<char> {
    "{\"title\":"@ + enc_str(m.title) + ",\"description\":"@ + enc_str(m.description)
        + ",\"icon\":"@ + enc_opt_str(m.icon) + ",\"actions\":"@ + enc_match_actions(m.actions)
        + ",\"score\":"@ + enc_score(m.score) + seq!['}']
}

/// A JSON array of matches.
pub open spec fn enc_matches(v: Seq<MatchV>) -> Seq<char> {
    enc_list(v, |m: MatchV| enc_match(m))
}

/// The five identity strings of a metadata object, from the `id` value to
/// the `author` value.
pub open spec fn enc_metadata_fields(md: MetadataV) -> Seq<char> {
    enc_str(md.id) + ",\"name\":"@ + enc_str(md.name) + ",\"version\":"@ + enc_str(md.version)
        + ",\"description\":"@ + enc_str(md.description) + ",\"author\":"@ + enc_str(md.author)
}

pub open spec fn enc_result(r: MethodResultV) -> Seq<char> {
    match r {
        MethodResultV::Authenticate(md) => "{\"type\":\"authenticate\",\"id\":"@
            + enc_metadata_fields(md) + seq!['}'],
        MethodResultV::Matches(items) => "{\"type\":\"matches\",\"items\":"@ + enc_matches(
            items,
        ) + seq!['}'],
        MethodResultV::Error(e) => "{\"type\":\"error\",\"message\":"@ + enc_str(e) + seq!['}'],
        MethodResultV::NoResult => "{\"type\":\"none\"}"@,
    }
}

pub open spec fn enc_opt_result(o: Option<MethodResultV>) -> Seq<char> {
    match o {
        Option::None => "null"@,
        Option::Some(r) => enc_result(r),
    }
}

/// What follows a request's id: the method members and the target plugin.
pub open spec fn enc_request_tail(method: MethodV, plugin_id: Option<Seq<char>>) -> Seq<char> {
    seq![','] + enc_method_flat(method) + ",\"plugin_id\":"@ + enc_opt_str(plugin_id) + seq!['}']
}

/// What follows a response's id: error, stamped plugin and result members.
pub open spec fn enc_response_tail(
    error: Option<Seq<char>>,
    plugin_id: Option<Seq<char>>,
    result: Option<MethodResultV>,
) -> Seq<char> {
    ",\"error\":"@ + enc_opt_str(error) + ",\"plugin_id\":"@ + enc_opt_str(plugin_id)
        + ",\"result\":"@ + enc_opt_result(result) + seq!['}']
}

/// The canonical line for a whole message (without the newline).
pub open spec fn enc_message(m: MessageV) -> Seq<char> {
    match m {
        MessageV::Request { id, method, plugin_id } => "{\"id\":"@ + enc_u64(id as int)
            + enc_request_tail(method, plugin_id),
        MessageV::Response { id, error, result, plugin_id } => "{\"id\":"@ + enc_u64(id as int)
            + enc_response_tail(error, plugin_id, result),
        MessageV::Notification { method } => seq!['{'] + enc_method_flat(method) + seq!['}'],
    }
}

// ===== encoders =====

fn append_bool(out: &mut String, b: bool)
    ensures
        final(out)@ == old(out)@ + enc_bool(b),
{
    if b {
        out.append("true");
    } else {
        out.append("false");
    }
}

fn append_opt_str(out: &mut String, o: &Option<String>)
    ensures
        final(out)@ == old(out)@ + enc_opt_str(o.deep_view()),
{
    match o {
        Option::None => {
            out.append("null");
        },
        Option::Some(s) => {
            append_string(out, s.as_str());
        },
    }
}

fn append_score(out: &mut String, n: u32)
    ensures
        final(out)@ == old(out)@ + enc_score(n),
{
    let whole: u32 = n / 1000;
    let frac: u32 = n % 1000;
    append_usize(out, whole as usize);
    push_char(out, '.');
    push_char(out, exec_hex_char(frac / 100));
    push_char(out, exec_hex_char(frac / 10 % 10));
    push_char(out, exec_hex_char(frac % 10));
    proof {
        assert(out@ =~= old(out)@ + enc_score(n));
    }
}

fn append_str_list(out: &mut String, l: &Vec<String>)
    ensures
        final(out)@ == old(out)@ + enc_args(l.deep_view()),
{
    let ghost f = |s: Seq<char>| enc_str(s);
    let ghost lv = l.deep_view();
    push_char(out, '[');
    let n = l.len();
    let mut k: usize = 0;
    proof {
        assert(lv.len() == n);
    }
    while k < n
        invariant
            k <= n,
            n == l@.len(),
            lv == l.deep_view(),
            lv.len() == n,
            out@ == old(out)@ + seq!['['] + enc_items(lv.take(k as int), f),
            f == (|s: Seq<char>| enc_str(s)),
        decreases n - k,
    {
        if k > 0 {
            push_char(out, ',');
        }
        append_string(out, l[k].as_str());
        proof {
            assert(l@[k as int]@ == lv[k as int]);
            lemma_enc_items_snoc(lv.take(k as int), lv[k as int], f);
            assert(lv.take(k + 1) =~= lv.take(k as int).push(lv[k as int]));
            if k > 0 {
                assert(out@ =~= old(out)@ + seq!['['] + enc_items(lv.take(k + 1), f));
            } else {
                assert(enc_items(lv.take(0), f) =~= Seq::<char>::empty());
                assert(out@ =~= old(out)@ + seq!['['] + enc_items(lv.take(k + 1), f));
            }
        }
        k = k + 1;
    }
    push_char(out, ']');
    proof {
        assert(lv.take(n as int) =~= lv);
        assert(out@ =~= old(out)@ + enc_list(lv, f));
    }
}

/// Appending one more item extends the comma-separated rendering.
proof fn lemma_enc_items_snoc<T>(l: Seq<T>, x: T, f: spec_fn(T) -> Seq<char>)
    ensures
        l.len() == 0 ==> enc_items(l.push(x), f) == enc_items(l, f) + f(x),
        l.len() > 0 ==> enc_items(l.push(x), f) == enc_items(l, f) + seq![','] + f(x),
    decreases l.len(),
{
    if l.len() == 0 {
        assert(l.push(x).len() == 1);
        assert(l.push(x)[0] == x);
        assert(enc_items(l.push(x), f) == f(x));
        assert(enc_items(l, f) + f(x) =~= f(x));
    } else if l.len() == 1 {
        assert(l.push(x)[0] == l[0]);
        assert(l.push(x).drop_first() =~= l.drop_first().push(x));
        assert(l.drop_first().len() == 0);
        lemma_enc_items_snoc(l.drop_first(), x, f);
        assert(l.drop_first().push(x).len() == 1);
        assert(l.drop_first().push(x)[0] == x);
        assert(enc_items(l.push(x), f) == f(l[0]) + seq![','] + f(x));
        assert(enc_items(l, f) + seq![','] + f(x) =~= f(l[0]) + seq![','] + f(x));
    } else {
        assert(l.push(x)[0] == l[0]);
        assert(l.push(x).drop_first() =~= l.drop_first().push(x));
        lemma_enc_items_snoc(l.drop_first(), x, f);
        assert(enc_items(l.push(x), f) == f(l[0]) + seq![','] + enc_items(
            l.drop_first().push(x),
            f,
        ));
        assert(enc_items(l.drop_first().push(x), f) == enc_items(l.drop_first(), f) + seq![',']
            + f(x));
        assert(enc_items(l.push(x), f) =~= enc_items(l, f) + seq![','] + f(x));
    }
}

fn append_params(out: &mut String, l: &Vec<(String, String)>)
    ensures
        final(out)@ == old(out)@ + enc_params(l.deep_view()),
{
    let ghost f = |p: (Seq<char>, Seq<char>)| enc_param(p);
    let ghost lv = l.deep_view();
    push_char(out, '{');
    let n = l.len();
    let mut k: usize = 0;
    while k < n
        invariant
            k <= n,
            n == l@.len(),
            lv == l.deep_view(),
            lv.len() == n,
            out@ == old(out)@ + seq!['{'] + enc_items(lv.take(k as int), f),
            f == (|p: (Seq<char>, Seq<char>)| enc_param(p)),
        decreases n - k,
    {
        if k > 0 {
            push_char(out, ',');
        }
        append_string(out, l[k].0.as_str());
        push_char(out, ':');
        append_string(out, l[k].1.as_str());
        proof {
            assert(l@[k as int].deep_view() == lv[k as int]);
            assert(l@[k as int].0@ == lv[k as int].0);
            assert(l@[k as int].1@ == lv[k as int].1);
            lemma_enc_items_snoc(lv.take(k as int), lv[k as int], f);
            assert(lv.take(k + 1) =~= lv.take(k as int).push(lv[k as int]));
            if k > 0 {
                assert(out@ =~= old(out)@ + seq!['{'] + enc_items(lv.take(k + 1), f));
            } else {
                assert(enc_items(lv.take(0), f) =~= Seq::<char>::empty());
                assert(out@ =~= old(out)@ + seq!['{'] + enc_items(lv.take(k + 1), f));
            }
        }
        k = k + 1;
    }
    push_char(out, '}');
    proof {
        assert(lv.take(n as int) =~= lv);
        assert(out@ =~= old(out)@ + enc_params(lv));
    }
}

fn append_method_flat(out: &mut String, m: &Method)
    ensures
        final(out)@ == old(out)@ + enc_method_flat(m@),
{
    match m {
        Method::Search(q) => {
            out.append("\"method\":\"search\",\"params\":");
            append_string(out, q.as_str());
            proof {
                assert(out@ =~= old(out)@ + enc_method_flat(m@));
            }
        },
        Method::Activate(mi, ai) => {
            out.append("\"method\":\"activate\",\"params\":[");
            append_usize(out, *mi);
            push_char(out, ',');
            append_usize(out, *ai);
            push_char(out, ']');
            proof {
                assert(out@ =~= old(out)@ + enc_method_flat(m@));
            }
        },
        Method::CallAction(k, ps) => {
            out.append("\"method\":\"call_action\",\"params\":[");
            append_string(out, k.as_str());
            push_char(out, ',');
            append_params(out, ps);
            push_char(out, ']');
            proof {
                assert(out@ =~= old(out)@ + enc_method_flat(m@));
            }
        },
        Method::Cancel => {
            out.append("\"method\":\"cancel\"");
            proof {
                assert(out@ =~= old(out)@ + enc_method_flat(m@));
            }
        },
        Method::Quit => {
            out.append("\"method\":\"quit\"");
            proof {
                assert(out@ =~= old(out)@ + enc_method_flat(m@));
            }
        },
    }
}

fn append_action(out: &mut String, a: &Action)
    ensures
        final(out)@ == old(out)@ + enc_action(a@),
{
    match a {
        Action::Exec { command, args } => {
            out.append("{\"type\":\"exec\",\"command\":");
            append_string(out, command.as_str());
            out.append(",\"args\":");
            append_str_list(out, args);
            push_char(out, '}');
            proof {
                assert(out@ =~= old(out)@ + enc_action(a@));
            }
        },
        Action::Launch { app_id, args, new_instance } => {
            out.append("{\"type\":\"launch\",\"app_id\":");
            append_string(out, app_id.as_str());
            out.append(",\"args\":");
            append_str_list(out, args);
            out.append(",\"new_instance\":");
            append_bool(out, *new_instance);
            push_char(out, '}');
            proof {
                assert(out@ =~= old(out)@ + enc_action(a@));
            }
        },
        Action::Open { uri } => {
            out.append("{\"type\":\"open\",\"uri\":");
            append_string(out, uri.as_str());
            push_char(out, '}');
            proof {
                assert(out@ =~= old(out)@ + enc_action(a@));
            }
        },
        Action::Clipboard { text } => {
            out.append("{\"type\":\"clipboard\",\"text\":");
            append_string(out, text.as_str());
            push_char(out, '}');
            proof {
                assert(out@ =~= old(out)@ + enc_action(a@));
            }
        },
        Action::Callback { key, params } => {
            out.append("{\"type\":\"callback\",\"key\":");
            append_string(out, key.as_str());
            out.append(",\"params\":");
            append_params(out, params);
            push_char(out, '}');
            proof {
                assert(out@ =~= old(out)@ + enc_action(a@));
            }
        },
    }
}

fn append_match_action(out: &mut String, ma: &MatchAction)
    ensures
        final(out)@ == old(out)@ + enc_match_action(ma@),
{
    out.append("{\"title\":");
    append_string(out, ma.title.as_str());
    out.append(",\"action\":");
    append_action(out, &ma.action);
    out.append(",\"close_on_action\":");
    append_bool(out, ma.close_on_action);
    push_char(out, '}');
    proof {
        assert(out@ =~= old(out)@ + enc_match_action(ma@));
    }
}

fn append_match(out: &mut String, m: &Match)
    ensures
        final(out)@ == old(out)@ + enc_match(m@),
{
    let ghost f = |a: MatchActionV| enc_match_action(a);
    out.append("{\"title\":");
    append_string(out, m.title.as_str());
    out.append(",\"description\":");
    append_string(out, m.description.as_str());
    out.append(",\"icon\":");
    append_opt_str(out, &m.icon);
    out.append(",\"actions\":");
    // the list of this match's actions, in order
    let ghost lv = m.actions.deep_view();
    push_char(out, '[');
    let ghost mark = out@;
    let n = m.actions.len();
    let mut k: usize = 0;
    while k < n
        invariant
            k <= n,
            n == m.actions@.len(),
            lv == m.actions.deep_view(),
            lv.len() == n,
            out@ == mark + enc_items(lv.take(k as int), f),
            f == (|a: MatchActionV| enc_match_action(a)),
        decreases n - k,
    {
        if k > 0 {
            push_char(out, ',');
        }
        append_match_action(out, &m.actions[k]);
        proof {
            assert(m.actions@[k as int]@ == lv[k as int]);
            lemma_enc_items_snoc(lv.take(k as int), lv[k as int], f);
            assert(lv.take(k + 1) =~= lv.take(k as int).push(lv[k as int]));
            assert(out@ =~= mark + enc_items(lv.take(k + 1), f));
        }
        k = k + 1;
    }
    push_char(out, ']');
    out.append(",\"score\":");
    append_score(out, m.score.millis);
    push_char(out, '}');
    proof {
        assert(lv.take(n as int) =~= lv);
        assert(out@ =~= old(out)@ + enc_match(m@));
    }
}

fn append_match_list(out: &mut String, items: &Vec<Match>)
    ensures
        final(out)@ == old(out)@ + enc_matches(items.deep_view()),
{
    let ghost f = |m: MatchV| enc_match(m);
    let ghost lv = items.deep_view();
    push_char(out, '[');
    let n = items.len();
    let mut k: usize = 0;
    while k < n
        invariant
            k <= n,
            n == items@.len(),
            lv == items.deep_view(),
            lv.len() == n,
            out@ == old(out)@ + seq!['['] + enc_items(lv.take(k as int), f),
            f == (|m: MatchV| enc_match(m)),
        decreases n - k,
    {
        if k > 0 {
            push_char(out, ',');
        }
        append_match(out, &items[k]);
        proof {
            assert(items@[k as int]@ == lv[k as int]);
            lemma_enc_items_snoc(lv.take(k as int), lv[k as int], f);
            assert(lv.take(k + 1) =~= lv.take(k as int).push(lv[k as int]));
            assert(out@ =~= old(out)@ + seq!['['] + enc_items(lv.take(k + 1), f));
        }
        k = k + 1;
    }
    push_char(out, ']');
    proof {
        assert(lv.take(n as int) =~= lv);
        assert(out@ =~= old(out)@ + enc_list(lv, f));
    }
}

fn append_result(out: &mut String, r: &MethodResult)
    ensures
        final(out)@ == old(out)@ + enc_result(r@),
{
    match r {
        MethodResult::Authenticate(md) => {
            out.append("{\"type\":\"authenticate\",\"id\":");
            append_string(out, md.id.as_str());
            out.append(",\"name\":");
            append_string(out, md.name.as_str());
            out.append(",\"version\":");
            append_string(out, md.version.as_str());
            out.append(",\"description\":");
            append_string(out, md.description.as_str());
            out.append(",\"author\":");
            append_string(out, md.author.as_str());
            push_char(out, '}');
            proof {
                assert(out@ =~= old(out)@ + enc_result(r@));
            }
        },
        MethodResult::Matches { items } => {
            out.append("{\"type\":\"matches\",\"items\":");
            append_match_list(out, items);
            push_char(out, '}');
            proof {
                assert(out@ =~= old(out)@ + enc_result(r@));
            }
        },
        MethodResult::Error(e) => {
            out.append("{\"type\":\"error\",\"message\":");
            append_string(out, e.as_str());
            push_char(out, '}');
            proof {
                assert(out@ =~= old(out)@ + enc_result(r@));
            }
        },
        MethodResult::NoResult => {
            out.append("{\"type\":\"none\"}");
            proof {
                assert(out@ =~= old(out)@ + enc_result(r@));
            }
        },
    }
}

// ===== parsers =====

/// One character of a fragment known to sit at `i`.
proof fn lemma_lit_char(s: Seq<char>, i: int, lit: Seq<char>, k: int)
    requires
        enc_at(s, i, lit),
        0 <= k < lit.len(),
    ensures
        s[i + k] == lit[k],
{
    assert(s.subrange(i, i + lit.len())[k] == s[i + k]);
}

/// Consumes a fixed literal, or reports that it is not there.
fn skip_lit(s: &Vec<char>, i: usize, lit: &str) -> (r: Option<usize>)
    requires
        i <= s@.len(),
    ensures
        r matches Some(j) ==> j as int == i + lit@.len() && enc_at(s@, i as int, lit@) && j
            <= s@.len(),
        r is None ==> !enc_at(s@, i as int, lit@),
{
    if expect_lit(s, i, lit) {
        let slen: usize = s.len();
        let n = lit.unicode_len();
        Some(i + n)
    } else {
        None
    }
}

fn parse_bool(s: &Vec<char>, i: usize) -> (r: Option<(bool, usize)>)
    requires
        i <= s@.len(),
    ensures
        r matches Some(p) ==> enc_at(s@, i as int, enc_bool(p.0)) && p.1 as int == i + enc_bool(
            p.0,
        ).len() && p.1 <= s@.len(),
        forall|v: bool|
            enc_at(s@, i as int, #[trigger] enc_bool(v)) ==> (r matches Some(p) && p.0 == v && p.1
                as int == i + enc_bool(v).len()),
{
    proof {
        reveal_strlit("true");
        reveal_strlit("false");
    }
    if let Some(j) = skip_lit(s, i, "true") {
        proof {
            if enc_at(s@, i as int, enc_bool(false)) {
                lemma_lit_char(s@, i as int, "true"@, 0);
                lemma_lit_char(s@, i as int, "false"@, 0);
            }
        }
        return Some((true, j));
    }
    if let Some(j) = skip_lit(s, i, "false") {
        return Some((false, j));
    }
    None
}

fn parse_opt_str(s: &Vec<char>, i: usize) -> (r: Option<(Option<String>, usize)>)
    requires
        i <= s@.len(),
    ensures
        r matches Some(p) ==> enc_at(s@, i as int, enc_opt_str(p.0.deep_view())) && p.1 as int == i
            + enc_opt_str(p.0.deep_view()).len() && p.1 <= s@.len(),
        forall|v: Option<Seq<char>>|
            enc_at(s@, i as int, #[trigger] enc_opt_str(v)) ==> (r matches Some(p)
                && p.0.deep_view() == v && p.1 as int == i + enc_opt_str(v).len()),
{
    proof {
        reveal_strlit("null");
    }
    if let Some(j) = skip_lit(s, i, "null") {
        proof {
            assert forall|v: Option<Seq<char>>|
                enc_at(s@, i as int, #[trigger] enc_opt_str(v)) implies v is None by {
                if v is Some {
                    lemma_lit_char(s@, i as int, "null"@, 0);
                    lemma_lit_char(s@, i as int, enc_str(v.unwrap()), 0);
                }
            }
        }
        return Some((None, j));
    }
    match parse_string(s, i) {
        Some((t, j)) => {
            proof {
                assert forall|v: Option<Seq<char>>|
                    enc_at(s@, i as int, #[trigger] enc_opt_str(v)) implies v is Some
                    && v.unwrap() == t@ by {
                    if v is None {
                        assert(enc_at(s@, i as int, "null"@));
                        assert(false);
                    }
                }
            }
            Some((Some(t), j))
        },
        None => {
            proof {
                assert forall|v: Option<Seq<char>>|
                    !enc_at(s@, i as int, #[trigger] enc_opt_str(v)) by {
                    if v is Some {
                        if enc_at(s@, i as int, enc_opt_str(v)) {
                            assert(enc_at(s@, i as int, enc_str(v.unwrap())));
                            assert(false);
                        }
                    }
                }
            }
            None
        },
    }
}

/// Reads a score written as a decimal fraction with exactly three digits
/// after the point.
fn parse_score(s: &Vec<char>, i: usize) -> (r: Option<(u32, usize)>)
    requires
        i <= s@.len(),
    ensures
        r matches Some(p) ==> enc_at(s@, i as int, enc_score(p.0)) && p.1 as int == i + enc_score(
            p.0,
        ).len() && p.1 <= s@.len(),
        forall|v: u32|
            enc_at(s@, i as int, #[trigger] enc_score(v)) ==> (r matches Some(p) && p.0 == v && p.1
                as int == i + enc_score(v).len()),
{
    let slen: usize = s.len();
    proof {
        assert forall|v: u32| enc_at(s@, i as int, #[trigger] enc_score(v)) implies enc_at(
            s@,
            i as int,
            enc_u64(v as int / 1000),
        ) && digit_delim(s@, i + enc_u64(v as int / 1000).len()) by {
            let tail = seq!['.'] + seq![
                hex_char((v as int % 1000) / 100),
                hex_char((v as int % 1000) / 10 % 10),
                hex_char((v as int % 1000) % 10),
            ];
            assert(enc_u64(v as int / 1000) + tail =~= enc_score(v));
            lemma_enc_at_split(s@, i as int, enc_u64(v as int / 1000), tail);
            lemma_lit_char(s@, i + enc_u64(v as int / 1000).len(), tail, 0);
        }
    }
    let ip = match parse_usize(s, i) {
        Some(p) => p,
        None => {
            return None;
        },
    };
    let whole: usize = ip.0;
    let j0: usize = ip.1;
    if whole > (u32::MAX / 1000) as usize {
        proof {
            assert forall|v: u32| !enc_at(s@, i as int, #[trigger] enc_score(v)) by {
                if enc_at(s@, i as int, enc_score(v)) {
                    assert(whole == v as int / 1000);
                }
            }
        }
        return None;
    }
    // the point and exactly three digits
    if slen - j0 < 4 {
        proof {
            assert forall|v: u32| !enc_at(s@, i as int, #[trigger] enc_score(v)) by {
                if enc_at(s@, i as int, enc_score(v)) {
                    assert(enc_score(v).len() == enc_u64(v as int / 1000).len() + 4);
                }
            }
        }
        return None;
    }
    proof {
        assert forall|v: u32| enc_at(s@, i as int, #[trigger] enc_score(v)) implies s@[j0 as int]
            == '.' && s@[j0 + 1] == hex_char((v as int % 1000) / 100) && s@[j0 + 2] == hex_char(
            (v as int % 1000) / 10 % 10,
        ) && s@[j0 + 3] == hex_char((v as int % 1000) % 10) by {
            let tail = seq!['.'] + seq![
                hex_char((v as int % 1000) / 100),
                hex_char((v as int % 1000) / 10 % 10),
                hex_char((v as int % 1000) % 10),
            ];
            assert(enc_u64(v as int / 1000) + tail =~= enc_score(v));
            lemma_enc_at_split(s@, i as int, enc_u64(v as int / 1000), tail);
            assert(whole == v as int / 1000);
            lemma_lit_char(s@, j0 as int, tail, 0);
            lemma_lit_char(s@, j0 as int, tail, 1);
            lemma_lit_char(s@, j0 as int, tail, 2);
            lemma_lit_char(s@, j0 as int, tail, 3);
        }
    }
    if s[j0] != '.' {
        return None;
    }
    let c1 = s[j0 + 1];
    let c2 = s[j0 + 2];
    let c3 = s[j0 + 3];
    if !exec_is_digit(c1) || !exec_is_digit(c2) || !exec_is_digit(c3) {
        proof {
            assert forall|v: u32| !enc_at(s@, i as int, #[trigger] enc_score(v)) by {}
        }
        return None;
    }
    let d1 = exec_digit_val(c1);
    let d2 = exec_digit_val(c2);
    let d3 = exec_digit_val(c3);
    let frac: u64 = (d1 as u64) * 100 + (d2 as u64) * 10 + (d3 as u64);
    let n64: u64 = (whole as u64) * 1000 + frac;
    if n64 > u32::MAX as u64 {
        proof {
            assert forall|v: u32| !enc_at(s@, i as int, #[trigger] enc_score(v)) by {
                if enc_at(s@, i as int, enc_score(v)) {
                    let m = v as int % 1000;
                    lemma_hex_char_inj(d1 as int, m / 100);
                    lemma_hex_char_inj(d2 as int, m / 10 % 10);
                    lemma_hex_char_inj(d3 as int, m % 10);
                    assert(m == m / 100 * 100 + m / 10 % 10 * 10 + m % 10) by (nonlinear_arith)
                        requires
                            0 <= m < 1000,
                    ;
                    assert(v as int == v as int / 1000 * 1000 + v as int % 1000);
                }
            }
        }
        return None;
    }
    let n: u32 = n64 as u32;
    proof {
        let m = n as int % 1000;
        assert(frac < 1000);
        assert(n as int / 1000 == whole && n as int % 1000 == frac) by (nonlinear_arith)
            requires
                n as int == whole as int * 1000 + frac,
                0 <= frac < 1000,
        ;
        assert(frac as int == d1 * 100 + d2 * 10 + d3);
        assert(m / 100 == d1 && m / 10 % 10 == d2 && m % 10 == d3) by (nonlinear_arith)
            requires
                m == d1 * 100 + d2 * 10 + d3,
                0 <= d1 < 10,
                0 <= d2 < 10,
                0 <= d3 < 10,
        ;
        let tail = seq!['.'] + seq![
            hex_char(m / 100),
            hex_char(m / 10 % 10),
            hex_char(m % 10),
        ];
        assert(s@.subrange(j0 as int, j0 + 4) =~= tail);
        lemma_enc_at_join(s@, i as int, enc_u64(whole as int), tail);
        assert(enc_u64(n as int / 1000) + tail =~= enc_score(n));
        assert forall|v: u32| enc_at(s@, i as int, #[trigger] enc_score(v)) implies v == n by {
            let mv = v as int % 1000;
            lemma_hex_char_inj(d1 as int, mv / 100);
            lemma_hex_char_inj(d2 as int, mv / 10 % 10);
            lemma_hex_char_inj(d3 as int, mv % 10);
            assert(mv == mv / 100 * 100 + mv / 10 % 10 * 10 + mv % 10) by (nonlinear_arith)
                requires
                    0 <= mv < 1000,
            ;
            assert(v as int == v as int / 1000 * 1000 + v as int % 1000);
        }
    }
    Some((n, j0 + 4))
}

/// Where item `k` of a comma-separated rendering sits, and what follows it.
proof fn lemma_enc_items_split<T>(v: Seq<T>, k: int, f: spec_fn(T) -> Seq<char>)
    requires
        0 <= k < v.len(),
    ensures
        enc_items(v, f) == (if k == 0 {
            Seq::<char>::empty()
        } else {
            enc_items(v.take(k), f) + seq![',']
        }) + f(v[k]) + (if k + 1 == v.len() {
            Seq::<char>::empty()
        } else {
            seq![','] + enc_items(v.skip(k + 1), f)
        }),
    decreases k,
{
    if k == 0 {
        if v.len() == 1 {
            assert(Seq::<char>::empty() + f(v[0]) + Seq::<char>::empty() =~= enc_items(v, f));
        } else {
            assert(v.drop_first() =~= v.skip(1));
            assert(Seq::<char>::empty() + f(v[0]) + (seq![','] + enc_items(v.skip(1), f))
                =~= enc_items(v, f));
        }
    } else {
        lemma_enc_items_split(v.drop_first(), k - 1, f);
        assert(v.drop_first().take(k - 1) =~= v.take(k).drop_first());
        assert(v.drop_first()[k - 1] == v[k]);
        assert(v.drop_first().skip(k) =~= v.skip(k + 1));
        // v.take(k) is nonempty, so its rendering starts with f(v[0])
        assert(v.take(k)[0] == v[0]);
        if k == 1 {
            assert(enc_items(v.take(1), f) == f(v[0]));
            if k + 1 == v.len() {
                assert(enc_items(v, f) == f(v[0]) + seq![','] + enc_items(v.drop_first(), f));
                assert(enc_items(v.drop_first(), f) == Seq::<char>::empty() + f(v[1])
                    + Seq::<char>::empty());
                assert(enc_items(v, f) =~= (enc_items(v.take(1), f) + seq![',']) + f(v[1])
                    + Seq::<char>::empty());
            } else {
                assert(enc_items(v, f) =~= (enc_items(v.take(1), f) + seq![',']) + f(v[1]) + (seq![
                    ','
                ] + enc_items(v.skip(2), f)));
            }
        } else {
            assert(enc_items(v.take(k), f) == f(v[0]) + seq![','] + enc_items(
                v.take(k).drop_first(),
                f,
            ));
            if k + 1 == v.len() {
                assert(enc_items(v, f) =~= (enc_items(v.take(k), f) + seq![',']) + f(v[k])
                    + Seq::<char>::empty());
            } else {
                assert(enc_items(v, f) =~= (enc_items(v.take(k), f) + seq![',']) + f(v[k]) + (seq![
                    ','
                ] + enc_items(v.skip(k + 1), f)));
            }
        }
    }
}

/// While reading a comma-separated rendering that ends just before `close`:
/// item `k` sits right after the first `k` items and their separators, and
/// is followed by `,` before the next item, or by `close` after the last.
proof fn lemma_items_progress<T>(
    s: Seq<char>,
    base: int,
    v: Seq<T>,
    k: int,
    f: spec_fn(T) -> Seq<char>,
    close: char,
)
    requires
        enc_at(s, base, enc_items(v, f) + seq![close]),
        0 <= k < v.len(),
    ensures
        enc_at(
            s,
            base + (if k == 0 {
                0int
            } else {
                enc_items(v.take(k), f).len() as int + 1
            }),
            f(v[k]),
        ),
        base + (if k == 0 {
            0int
        } else {
            enc_items(v.take(k), f).len() as int + 1
        }) + f(v[k]).len() < s.len(),
        k + 1 < v.len() ==> s[base + (if k == 0 {
            0int
        } else {
            enc_items(v.take(k), f).len() as int + 1
        }) + f(v[k]).len()] == ',',
        k + 1 == v.len() ==> s[base + (if k == 0 {
            0int
        } else {
            enc_items(v.take(k), f).len() as int + 1
        }) + f(v[k]).len()] == close,
{
    let pre: Seq<char> = if k == 0 {
        Seq::<char>::empty()
    } else {
        enc_items(v.take(k), f) + seq![',']
    };
    let post: Seq<char> = if k + 1 == v.len() {
        Seq::<char>::empty()
    } else {
        seq![','] + enc_items(v.skip(k + 1), f)
    };
    lemma_enc_items_split(v, k, f);
    assert(enc_items(v, f) == pre + f(v[k]) + post);
    let jj = base + pre.len();
    assert(pre + f(v[k]) + post + seq![close] =~= pre + ((f(v[k]) + (post + seq![close]))));
    lemma_enc_at_split(s, base, pre, f(v[k]) + (post + seq![close]));
    lemma_enc_at_split(s, jj, f(v[k]), post + seq![close]);
    lemma_enc_at_split(s, jj + f(v[k]).len(), post, seq![close]);
    if k + 1 < v.len() {
        lemma_lit_char(s, jj + f(v[k]).len(), post, 0);
    } else {
        lemma_lit_char(s, jj + f(v[k]).len() + post.len(), seq![close], 0);
    }
}

/// Reads a JSON array of strings. Succeeds on, and only on, exactly the
/// fragments that the canonical rendering produces.
fn parse_str_list(s: &Vec<char>, i: usize) -> (r: Option<(Vec<String>, usize)>)
    requires
        i <= s@.len(),
    ensures
        r matches Some(p) ==> enc_at(s@, i as int, enc_args(p.0.deep_view())) && p.1 as int == i
            + enc_args(p.0.deep_view()).len() && p.1 <= s@.len(),
        forall|v: Seq<Seq<char>>|
            enc_at(s@, i as int, #[trigger] enc_args(v)) ==> (r matches Some(p)
                && p.0.deep_view() == v && p.1 as int == i + enc_args(v).len()),
{
    let ghost f = |s: Seq<char>| enc_str(s);
    let slen: usize = s.len();
    proof {
        assert forall|v: Seq<Seq<char>>|
            enc_at(s@, i as int, #[trigger] enc_args(v)) implies i < slen && s@[i as int]
            == '[' && enc_at(s@, i + 1, enc_items(v, f) + seq![']']) by {
            lemma_lit_char(s@, i as int, enc_list(v, f), 0);
            assert(seq!['['] + (enc_items(v, f) + seq![']']) =~= enc_list(v, f));
            lemma_enc_at_split(s@, i as int, seq!['['], enc_items(v, f) + seq![']']);
        }
    }
    proof {
        assert forall|v: Seq<Seq<char>>|
            enc_at(s@, i as int, #[trigger] enc_args(v)) implies i + enc_args(v).len() <= slen
            && enc_args(v).len() >= 2 by {
            assert(enc_args(v).len() >= 2);
        }
    }
    if i >= slen || s[i] != '[' {
        return None;
    }
    let mut j: usize = i + 1;
    if j < slen && s[j] == ']' {
        proof {
            assert forall|v: Seq<Seq<char>>|
                enc_at(s@, i as int, #[trigger] enc_args(v)) implies v =~= Seq::<
                Seq<char>,
            >::empty() by {
                if v.len() > 0 {
                    lemma_items_progress(s@, i + 1, v, 0, f, ']');
                    lemma_lit_char(s@, i + 1, f(v[0]), 0);
                    assert(f(v[0])[0] == '"');
                }
            }
            let ev = Seq::<Seq<char>>::empty();
            assert(enc_items(ev, f) =~= Seq::<char>::empty());
            assert(s@.subrange(i as int, i + 2) =~= enc_list(ev, f));
        }
        let out: Vec<String> = Vec::new();
        proof {
            assert(out.deep_view() =~= Seq::<Seq<char>>::empty());
        }
        return Some((out, j + 1));
    }
    let mut out: Vec<String> = Vec::new();
    proof {
        assert(out.deep_view() =~= Seq::<Seq<char>>::empty());
        assert forall|v: Seq<Seq<char>>|
            enc_at(s@, i as int, #[trigger] enc_args(v)) implies out.deep_view().len() < v.len()
            && out.deep_view() == v.take(out.deep_view().len() as int) by {
            if v.len() == 0 {
                assert(enc_items(v, f) =~= Seq::<char>::empty());
                assert(enc_args(v) =~= seq!['[', ']']);
                lemma_lit_char(s@, i as int, enc_args(v), 1);
                assert(false);
            }
            assert(out.deep_view() =~= v.take(0));
        }
    }
    loop
        invariant
            i + 1 <= j <= slen,
            slen == s@.len(),
            s@[i as int] == '[',
            i < slen,
            out.deep_view().len() == 0 ==> j == i + 1,
            out.deep_view().len() > 0 ==> s@.subrange(i + 1, j as int) == enc_items(
                out.deep_view(),
                f,
            ) + seq![','],
            forall|v: Seq<Seq<char>>|
                enc_at(s@, i as int, #[trigger] enc_args(v)) ==> out.deep_view().len() < v.len()
                    && out.deep_view() == v.take(out.deep_view().len() as int),
            f == (|s: Seq<char>| enc_str(s)),
        decreases slen - j,
    {
        let ghost outv = out.deep_view();
        let ghost k = outv.len() as int;
        proof {
            assert forall|v: Seq<Seq<char>>|
                enc_at(s@, i as int, #[trigger] enc_args(v)) implies enc_at(
                s@,
                j as int,
                enc_str(v[k]),
            ) by {
                assert(seq!['['] + (enc_items(v, f) + seq![']']) =~= enc_list(v, f));
                lemma_enc_at_split(s@, i as int, seq!['['], enc_items(v, f) + seq![']']);
                lemma_items_progress(s@, i + 1, v, k, f, ']');
                if k > 0 {
                    assert(enc_items(v.take(k), f) == enc_items(outv, f));
                }
            }
        }
        let item = match parse_string(s, j) {
            Some(p) => p,
            None => {
                return None;
            },
        };
        let j2: usize = item.1;
        let ghost k2 = j2 as int;
        proof {
            assert forall|v: Seq<Seq<char>>|
                enc_at(s@, i as int, #[trigger] enc_args(v)) implies item.0@ == v[k] && j2
                as int == j + enc_str(v[k]).len() && j2 < slen && (k + 1 < v.len() ==> s@[k2]
                == ',') && (k + 1 == v.len() ==> s@[k2] == ']') by {
                assert(seq!['['] + (enc_items(v, f) + seq![']']) =~= enc_list(v, f));
                lemma_enc_at_split(s@, i as int, seq!['['], enc_items(v, f) + seq![']']);
                lemma_items_progress(s@, i + 1, v, k, f, ']');
                if k > 0 {
                    assert(enc_items(v.take(k), f) == enc_items(outv, f));
                }
            }
        }
        out.push(item.0);
        proof {
            assert(out.deep_view() =~= outv.push(item.0@));
            lemma_enc_items_snoc(outv, item.0@, f);
        }
        if j2 >= slen {
            proof {
                assert forall|v: Seq<Seq<char>>|
                    !enc_at(s@, i as int, #[trigger] enc_args(v)) by {}
            }
            return None;
        }
        let c = s[j2];
        if c == ']' {
            proof {
                assert forall|v: Seq<Seq<char>>|
                    enc_at(s@, i as int, #[trigger] enc_args(v)) implies out.deep_view() == v
                    && j2 + 1 == i + enc_args(v).len() by {
                    if k + 1 < v.len() {
                        assert(s@[k2] == ',');
                        assert(false);
                    }
                    assert(out.deep_view() =~= v);
                }
                // the fragment we consumed is exactly the rendering of `out`
                if k > 0 {
                    assert(s@.subrange(i + 1, j2 as int) =~= (enc_items(outv, f) + seq![','])
                        + enc_str(item.0@));
                } else {
                    assert(s@.subrange(i + 1, j2 as int) =~= enc_str(item.0@));
                }
                assert(s@.subrange(i + 1, j2 as int) =~= enc_items(out.deep_view(), f));
                assert(s@.subrange(j2 as int, j2 + 1) =~= seq![']']);
                assert(s@.subrange(i as int, i + 1) =~= seq!['[']);
                lemma_enc_at_join(s@, i + 1, enc_items(out.deep_view(), f), seq![']']);
                lemma_enc_at_join(
                    s@,
                    i as int,
                    seq!['['],
                    enc_items(out.deep_view(), f) + seq![']'],
                );
                assert(seq!['['] + (enc_items(out.deep_view(), f) + seq![']']) =~= enc_list(
                    out.deep_view(),
                    f,
                ));
            }
            return Some((out, j2 + 1));
        } else if c == ',' {
            proof {
                assert forall|v: Seq<Seq<char>>|
                    enc_at(s@, i as int, #[trigger] enc_args(v)) implies out.deep_view().len()
                    < v.len() && out.deep_view() == v.take(out.deep_view().len() as int) by {
                    if k + 1 == v.len() {
                        assert(s@[k2] == ']');
                        assert(false);
                    }
                    assert(out.deep_view() =~= v.take(k + 1));
                }
                if k > 0 {
                    assert(s@.subrange(i + 1, j2 + 1) =~= ((enc_items(outv, f) + seq![','])
                        + enc_str(item.0@)) + seq![',']);
                } else {
                    assert(s@.subrange(i + 1, j2 + 1) =~= enc_str(item.0@) + seq![',']);
                }
                assert(s@.subrange(i + 1, j2 + 1) =~= enc_items(out.deep_view(), f) + seq![',']);
            }
            j = j2 + 1;
        } else {
            proof {
                assert forall|v: Seq<Seq<char>>|
                    !enc_at(s@, i as int, #[trigger] enc_args(v)) by {}
            }
            return None;
        }
    }
}

/// Reads a JSON object of string-to-string members. Succeeds on, and only
/// on, exactly the fragments that [`enc_params`] produces.
#[verifier::rlimit(100)]
fn parse_params(s: &Vec<char>, i: usize) -> (r: Option<(Vec<(String, String)>, usize)>)
    requires
        i <= s@.len(),
    ensures
        r matches Some(p) ==> enc_at(s@, i as int, enc_params(p.0.deep_view())) && p.1 as int == i
            + enc_params(p.0.deep_view()).len() && p.1 <= s@.len(),
        forall|v: Seq<(Seq<char>, Seq<char>)>|
            enc_at(s@, i as int, #[trigger] enc_params(v)) ==> (r matches Some(p)
                && p.0.deep_view() == v && p.1 as int == i + enc_params(v).len()),
{
    let ghost f = |p: (Seq<char>, Seq<char>)| enc_param(p);
    let slen: usize = s.len();
    proof {
        assert forall|v: Seq<(Seq<char>, Seq<char>)>|
            enc_at(s@, i as int, #[trigger] enc_params(v)) implies i < slen && s@[i as int] == '{'
            && enc_at(s@, i + 1, enc_items(v, f) + seq!['}']) by {
            lemma_lit_char(s@, i as int, enc_params(v), 0);
            assert(seq!['{'] + (enc_items(v, f) + seq!['}']) =~= enc_params(v));
            lemma_enc_at_split(s@, i as int, seq!['{'], enc_items(v, f) + seq!['}']);
        }
    }
    if i >= slen || s[i] != '{' {
        return None;
    }
    let mut j: usize = i + 1;
    if j < slen && s[j] == '}' {
        proof {
            assert forall|v: Seq<(Seq<char>, Seq<char>)>|
                enc_at(s@, i as int, #[trigger] enc_params(v)) implies v =~= Seq::<
                (Seq<char>, Seq<char>),
            >::empty() by {
                if v.len() > 0 {
                    lemma_items_progress(s@, i + 1, v, 0, f, '}');
                    lemma_lit_char(s@, i + 1, f(v[0]), 0);
                    assert(f(v[0])[0] == '"');
                }
            }
            let ev = Seq::<(Seq<char>, Seq<char>)>::empty();
            assert(enc_items(ev, f) =~= Seq::<char>::empty());
            assert(s@.subrange(i as int, i + 2) =~= enc_params(ev));
        }
        let out: Vec<(String, String)> = Vec::new();
        proof {
            assert(out.deep_view() =~= Seq::<(Seq<char>, Seq<char>)>::empty());
        }
        return Some((out, j + 1));
    }
    let mut out: Vec<(String, String)> = Vec::new();
    proof {
        assert(out.deep_view() =~= Seq::<(Seq<char>, Seq<char>)>::empty());
        assert forall|v: Seq<(Seq<char>, Seq<char>)>|
            enc_at(s@, i as int, #[trigger] enc_params(v)) implies out.deep_view().len() < v.len()
            && out.deep_view() == v.take(out.deep_view().len() as int) by {
            if v.len() == 0 {
                assert(enc_items(v, f) =~= Seq::<char>::empty());
                assert(enc_params(v) =~= seq!['{', '}']);
                lemma_lit_char(s@, i as int, enc_params(v), 1);
                assert(false);
            }
            assert(out.deep_view() =~= v.take(0));
        }
    }
    loop
        invariant
            i + 1 <= j <= slen,
            slen == s@.len(),
            s@[i as int] == '{',
            i < slen,
            out.deep_view().len() == 0 ==> j == i + 1,
            out.deep_view().len() > 0 ==> s@.subrange(i + 1, j as int) == enc_items(
                out.deep_view(),
                f,
            ) + seq![','],
            forall|v: Seq<(Seq<char>, Seq<char>)>|
                enc_at(s@, i as int, #[trigger] enc_params(v)) ==> out.deep_view().len() < v.len()
                    && out.deep_view() == v.take(out.deep_view().len() as int),
            f == (|p: (Seq<char>, Seq<char>)| enc_param(p)),
        decreases slen - j,
    {
        let ghost outv = out.deep_view();
        let ghost k = outv.len() as int;
        proof {
            assert forall|v: Seq<(Seq<char>, Seq<char>)>|
                enc_at(s@, i as int, #[trigger] enc_params(v)) implies enc_at(
                s@,
                j as int,
                enc_str(v[k].0),
            ) && enc_at(s@, j + enc_str(v[k].0).len(), seq![':']) && enc_at(
                s@,
                j + enc_str(v[k].0).len() + 1,
                enc_str(v[k].1),
            ) by {
                assert(seq!['{'] + (enc_items(v, f) + seq!['}']) =~= enc_params(v));
                lemma_enc_at_split(s@, i as int, seq!['{'], enc_items(v, f) + seq!['}']);
                lemma_items_progress(s@, i + 1, v, k, f, '}');
                if k > 0 {
                    assert(enc_items(v.take(k), f) == enc_items(outv, f));
                }
                assert(enc_param(v[k]) =~= enc_str(v[k].0) + (seq![':'] + enc_str(v[k].1)));
                let jj = j as int;
                lemma_enc_at_split(s@, jj, enc_str(v[k].0), seq![':'] + enc_str(v[k].1));
                lemma_enc_at_split(s@, jj + enc_str(v[k].0).len(), seq![':'], enc_str(v[k].1));
            }
        }
        let key = match parse_string(s, j) {
            Some(p) => p,
            None => {
                return None;
            },
        };
        let jk: usize = key.1;
        if jk >= slen || s[jk] != ':' {
            proof {
                assert forall|v: Seq<(Seq<char>, Seq<char>)>|
                    !enc_at(s@, i as int, #[trigger] enc_params(v)) by {
                    if enc_at(s@, i as int, enc_params(v)) {
                        assert(key.0@ == v[k].0);
                        lemma_lit_char(s@, j + enc_str(v[k].0).len(), seq![':'], 0);
                    }
                }
            }
            return None;
        }
        let val = match parse_string(s, jk + 1) {
            Some(p) => p,
            None => {
                proof {
                    assert forall|v: Seq<(Seq<char>, Seq<char>)>|
                        !enc_at(s@, i as int, #[trigger] enc_params(v)) by {
                        if enc_at(s@, i as int, enc_params(v)) {
                            assert(key.0@ == v[k].0);
                        }
                    }
                }
                return None;
            },
        };
        let j2: usize = val.1;
        let ghost k2 = j2 as int;
        proof {
            assert forall|v: Seq<(Seq<char>, Seq<char>)>|
                enc_at(s@, i as int, #[trigger] enc_params(v)) implies key.0@ == v[k].0 && val.0@
                == v[k].1 && j2 as int == j + enc_param(v[k]).len() && j2 < slen && (k + 1
                < v.len() ==> s@[k2] == ',') && (k + 1 == v.len() ==> s@[k2] == '}') by {
                assert(seq!['{'] + (enc_items(v, f) + seq!['}']) =~= enc_params(v));
                lemma_enc_at_split(s@, i as int, seq!['{'], enc_items(v, f) + seq!['}']);
                lemma_items_progress(s@, i + 1, v, k, f, '}');
                if k > 0 {
                    assert(enc_items(v.take(k), f) == enc_items(outv, f));
                }
            }
        }
        out.push((key.0, val.0));
        proof {
            assert(out.deep_view() =~= outv.push((key.0@, val.0@)));
            lemma_enc_items_snoc(outv, (key.0@, val.0@), f);
            assert(s@.subrange(j as int, j2 as int) =~= enc_str(key.0@) + seq![':'] + enc_str(
                val.0@,
            ));
            assert(enc_param((key.0@, val.0@)) == enc_str(key.0@) + seq![':'] + enc_str(val.0@));
        }
        if j2 >= slen {
            proof {
                assert forall|v: Seq<(Seq<char>, Seq<char>)>|
                    !enc_at(s@, i as int, #[trigger] enc_params(v)) by {}
            }
            return None;
        }
        let c = s[j2];
        if c == '}' {
            proof {
                assert forall|v: Seq<(Seq<char>, Seq<char>)>|
                    enc_at(s@, i as int, #[trigger] enc_params(v)) implies out.deep_view() == v
                    && j2 + 1 == i + enc_params(v).len() by {
                    if k + 1 < v.len() {
                        assert(s@[k2] == ',');
                        assert(false);
                    }
                    assert(out.deep_view() =~= v);
                }
                if k > 0 {
                    assert(s@.subrange(i + 1, j2 as int) =~= (enc_items(outv, f) + seq![','])
                        + enc_param((key.0@, val.0@)));
                } else {
                    assert(s@.subrange(i + 1, j2 as int) =~= enc_param((key.0@, val.0@)));
                }
                assert(s@.subrange(i + 1, j2 as int) =~= enc_items(out.deep_view(), f));
                assert(s@.subrange(j2 as int, j2 + 1) =~= seq!['}']);
                assert(s@.subrange(i as int, i + 1) =~= seq!['{']);
                lemma_enc_at_join(s@, i + 1, enc_items(out.deep_view(), f), seq!['}']);
                lemma_enc_at_join(
                    s@,
                    i as int,
                    seq!['{'],
                    enc_items(out.deep_view(), f) + seq!['}'],
                );
                assert(seq!['{'] + (enc_items(out.deep_view(), f) + seq!['}']) =~= enc_params(
                    out.deep_view(),
                ));
            }
            return Some((out, j2 + 1));
        } else if c == ',' {
            proof {
                assert forall|v: Seq<(Seq<char>, Seq<char>)>|
                    enc_at(s@, i as int, #[trigger] enc_params(v)) implies out.deep_view().len()
                    < v.len() && out.deep_view() == v.take(out.deep_view().len() as int) by {
                    if k + 1 == v.len() {
                        assert(s@[k2] == '}');
                        assert(false);
                    }
                    assert(out.deep_view() =~= v.take(k + 1));
                }
                if k > 0 {
                    assert(s@.subrange(i + 1, j2 + 1) =~= ((enc_items(outv, f) + seq![','])
                        + enc_param((key.0@, val.0@))) + seq![',']);
                } else {
                    assert(s@.subrange(i + 1, j2 + 1) =~= enc_param((key.0@, val.0@)) + seq![',']);
                }
                assert(s@.subrange(i + 1, j2 + 1) =~= enc_items(out.deep_view(), f) + seq![',']);
            }
            j = j2 + 1;
        } else {
            proof {
                assert forall|v: Seq<(Seq<char>, Seq<char>)>|
                    !enc_at(s@, i as int, #[trigger] enc_params(v)) by {}
            }
            return None;
        }
    }
}

/// Where the pieces of an encoded match action sit.
proof fn lemma_match_action_parts(s: Seq<char>, i: int, v: MatchActionV)
    requires
        enc_at(s, i, enc_match_action(v)),
    ensures
        enc_at(s, i, "{\"title\":"@),
        enc_at(s, i + "{\"title\":"@.len(), enc_str(v.title)),
        enc_at(s, i + "{\"title\":"@.len() + enc_str(v.title).len(), ",\"action\":"@),
        enc_at(
            s,
            i + "{\"title\":"@.len() + enc_str(v.title).len() + ",\"action\":"@.len(),
            enc_action(v.action),
        ),
        enc_at(
            s,
            i + "{\"title\":"@.len() + enc_str(v.title).len() + ",\"action\":"@.len() + enc_action(
                v.action,
            ).len(),
            ",\"close_on_action\":"@,
        ),
        enc_at(
            s,
            i + "{\"title\":"@.len() + enc_str(v.title).len() + ",\"action\":"@.len() + enc_action(
                v.action,
            ).len() + ",\"close_on_action\":"@.len(),
            enc_bool(v.close_on_action),
        ),
        enc_at(
            s,
            i + "{\"title\":"@.len() + enc_str(v.title).len() + ",\"action\":"@.len() + enc_action(
                v.action,
            ).len() + ",\"close_on_action\":"@.len() + enc_bool(v.close_on_action).len(),
            seq!['}'],
        ),
        i + enc_match_action(v).len() == i + "{\"title\":"@.len() + enc_str(v.title).len()
            + ",\"action\":"@.len() + enc_action(v.action).len() + ",\"close_on_action\":"@.len()
            + enc_bool(v.close_on_action).len() + 1,
{
    let l1 = "{\"title\":"@;
    let l2 = ",\"action\":"@;
    let l3 = ",\"close_on_action\":"@;
    assert(enc_match_action(v) =~= l1 + (enc_str(v.title) + (l2 + (enc_action(v.action) + (l3 + (
    enc_bool(v.close_on_action) + seq!['}']))))));
    lemma_enc_at_split(
        s,
        i,
        l1,
        enc_str(v.title) + (l2 + (enc_action(v.action) + (l3 + (enc_bool(v.close_on_action)
            + seq!['}'])))),
    );
    lemma_enc_at_split(
        s,
        i + l1.len(),
        enc_str(v.title),
        l2 + (enc_action(v.action) + (l3 + (enc_bool(v.close_on_action) + seq!['}']))),
    );
    lemma_enc_at_split(
        s,
        i + l1.len() + enc_str(v.title).len(),
        l2,
        enc_action(v.action) + (l3 + (enc_bool(v.close_on_action) + seq!['}'])),
    );
    lemma_enc_at_split(
        s,
        i + l1.len() + enc_str(v.title).len() + l2.len(),
        enc_action(v.action),
        l3 + (enc_bool(v.close_on_action) + seq!['}']),
    );
    lemma_enc_at_split(
        s,
        i + l1.len() + enc_str(v.title).len() + l2.len() + enc_action(v.action).len(),
        l3,
        enc_bool(v.close_on_action) + seq!['}'],
    );
    lemma_enc_at_split(
        s,
        i + l1.len() + enc_str(v.title).len() + l2.len() + enc_action(v.action).len() + l3.len(),
        enc_bool(v.close_on_action),
        seq!['}'],
    );
}

/// Joining the pieces of a match action back into one fragment.
#[verifier::rlimit(100)]
proof fn lemma_match_action_join(s: Seq<char>, i: int, v: MatchActionV)
    requires
        enc_at(s, i, "{\"title\":"@),
        enc_at(s, i + "{\"title\":"@.len(), enc_str(v.title)),
        enc_at(s, i + "{\"title\":"@.len() + enc_str(v.title).len(), ",\"action\":"@),
        enc_at(
            s,
            i + "{\"title\":"@.len() + enc_str(v.title).len() + ",\"action\":"@.len(),
            enc_action(v.action),
        ),
        enc_at(
            s,
            i + "{\"title\":"@.len() + enc_str(v.title).len() + ",\"action\":"@.len() + enc_action(
                v.action,
            ).len(),
            ",\"close_on_action\":"@,
        ),
        enc_at(
            s,
            i + "{\"title\":"@.len() + enc_str(v.title).len() + ",\"action\":"@.len() + enc_action(
                v.action,
            ).len() + ",\"close_on_action\":"@.len(),
            enc_bool(v.close_on_action),
        ),
        enc_at(
            s,
            i + "{\"title\":"@.len() + enc_str(v.title).len() + ",\"action\":"@.len() + enc_action(
                v.action,
            ).len() + ",\"close_on_action\":"@.len() + enc_bool(v.close_on_action).len(),
            seq!['}'],
        ),
    ensures
        enc_at(s, i, enc_match_action(v)),
{
    let l1 = "{\"title\":"@;
    let l2 = ",\"action\":"@;
    let l3 = ",\"close_on_action\":"@;
    let c1 = i + l1.len();
    let c2 = c1 + enc_str(v.title).len();
    let c3 = c2 + l2.len();
    let c4 = c3 + enc_action(v.action).len();
    let c5 = c4 + l3.len();
    lemma_enc_at_join(s, c5, enc_bool(v.close_on_action), seq!['}']);
    lemma_enc_at_join(s, c4, l3, enc_bool(v.close_on_action) + seq!['}']);
    lemma_enc_at_join(
        s,
        c3,
        enc_action(v.action),
        l3 + (enc_bool(v.close_on_action) + seq!['}']),
    );
    lemma_enc_at_join(
        s,
        c2,
        l2,
        enc_action(v.action) + (l3 + (enc_bool(v.close_on_action) + seq!['}'])),
    );
    lemma_enc_at_join(
        s,
        c1,
        enc_str(v.title),
        l2 + (enc_action(v.action) + (l3 + (enc_bool(v.close_on_action) + seq!['}']))),
    );
    lemma_enc_at_join(
        s,
        i,
        l1,
        enc_str(v.title) + (l2 + (enc_action(v.action) + (l3 + (enc_bool(v.close_on_action)
            + seq!['}'])))),
    );
    assert(l1 + (enc_str(v.title) + (l2 + (enc_action(v.action) + (l3 + (enc_bool(
        v.close_on_action,
    ) + seq!['}']))))) =~= enc_match_action(v));
}

/// Reads one match action object. Succeeds on, and only on, exactly the
/// fragments that [`enc_match_action`] produces.
#[verifier::rlimit(100)]
fn parse_match_action(s: &Vec<char>, i: usize) -> (r: Option<(MatchAction, usize)>)
    requires
        i <= s@.len(),
    ensures
        r matches Some(p) ==> enc_at(s@, i as int, enc_match_action(p.0@)) && p.1 as int == i
            + enc_match_action(p.0@).len() && p.1 <= s@.len(),
        forall|v: MatchActionV|
            enc_at(s@, i as int, #[trigger] enc_match_action(v)) ==> (r matches Some(p) && p.0@
                == v && p.1 as int == i + enc_match_action(v).len()),
{
    let slen: usize = s.len();
    proof {
        reveal_strlit("{\"title\":");
        reveal_strlit(",\"action\":");
        reveal_strlit(",\"close_on_action\":");
    }
    let j1 = match skip_lit(s, i, "{\"title\":") {
        Some(j) => j,
        None => {
            proof {
                assert forall|v: MatchActionV|
                    !enc_at(s@, i as int, #[trigger] enc_match_action(v)) by {
                    if enc_at(s@, i as int, enc_match_action(v)) {
                        lemma_match_action_parts(s@, i as int, v);
                    }
                }
            }
            return None;
        },
    };
    proof {
        assert forall|v: MatchActionV|
            enc_at(s@, i as int, #[trigger] enc_match_action(v)) implies enc_at(
            s@,
            j1 as int,
            enc_str(v.title),
        ) by {
            lemma_match_action_parts(s@, i as int, v);
        }
    }
    let title = match parse_string(s, j1) {
        Some(p) => p,
        None => {
            proof {
                assert forall|v: MatchActionV|
                    !enc_at(s@, i as int, #[trigger] enc_match_action(v)) by {}
            }
            return None;
        },
    };
    let j2: usize = title.1;
    let j3 = match skip_lit(s, j2, ",\"action\":") {
        Some(j) => j,
        None => {
            proof {
                assert forall|v: MatchActionV|
                    !enc_at(s@, i as int, #[trigger] enc_match_action(v)) by {
                    if enc_at(s@, i as int, enc_match_action(v)) {
                        lemma_match_action_parts(s@, i as int, v);
                        assert(title.0@ == v.title);
                    }
                }
            }
            return None;
        },
    };
    let act = match parse_action(s, j3) {
        Some(p) => p,
        None => {
            proof {
                assert forall|v: MatchActionV|
                    !enc_at(s@, i as int, #[trigger] enc_match_action(v)) by {
                    if enc_at(s@, i as int, enc_match_action(v)) {
                        lemma_match_action_parts(s@, i as int, v);
                        assert(title.0@ == v.title);
                    }
                }
            }
            return None;
        },
    };
    let j4: usize = act.1;
    let j5 = match skip_lit(s, j4, ",\"close_on_action\":") {
        Some(j) => j,
        None => {
            proof {
                assert forall|v: MatchActionV|
                    !enc_at(s@, i as int, #[trigger] enc_match_action(v)) by {
                    if enc_at(s@, i as int, enc_match_action(v)) {
                        lemma_match_action_parts(s@, i as int, v);
                        assert(title.0@ == v.title);
                        assert(act.0@ == v.action);
                    }
                }
            }
            return None;
        },
    };
    let cb = match parse_bool(s, j5) {
        Some(p) => p,
        None => {
            proof {
                assert forall|v: MatchActionV|
                    !enc_at(s@, i as int, #[trigger] enc_match_action(v)) by {
                    if enc_at(s@, i as int, enc_match_action(v)) {
                        lemma_match_action_parts(s@, i as int, v);
                        assert(title.0@ == v.title);
                        assert(act.0@ == v.action);
                    }
                }
            }
            return None;
        },
    };
    let j6: usize = cb.1;
    if j6 >= slen || s[j6] != '}' {
        proof {
            assert forall|v: MatchActionV|
                !enc_at(s@, i as int, #[trigger] enc_match_action(v)) by {
                if enc_at(s@, i as int, enc_match_action(v)) {
                    lemma_match_action_parts(s@, i as int, v);
                    assert(title.0@ == v.title);
                    assert(act.0@ == v.action);
                    assert(cb.0 == v.close_on_action);
                    lemma_lit_char(
                        s@,
                        i + "{\"title\":"@.len() + enc_str(v.title).len() + ",\"action\":"@.len()
                            + enc_action(v.action).len() + ",\"close_on_action\":"@.len()
                            + enc_bool(v.close_on_action).len(),
                        seq!['}'],
                        0,
                    );
                }
            }
        }
        return None;
    }
    let out = MatchAction { title: title.0, action: act.0, close_on_action: cb.0 };
    proof {
        assert(s@.subrange(j6 as int, j6 + 1) =~= seq!['}']);
        lemma_match_action_join(s@, i as int, out@);
        assert forall|v: MatchActionV|
            enc_at(s@, i as int, #[trigger] enc_match_action(v)) implies out@ == v && j6 + 1 == i
            + enc_match_action(v).len() by {
            lemma_match_action_parts(s@, i as int, v);
            assert(title.0@ == v.title);
            assert(act.0@ == v.action);
            assert(cb.0 == v.close_on_action);
        }
    }
    Some((out, j6 + 1))
}

/// Every encoded match action opens with a brace.
proof fn lemma_match_action_first_char(v: MatchActionV)
    ensures
        enc_match_action(v).len() >= 1,
        enc_match_action(v)[0] == '{',
{
    reveal_strlit("{\"title\":");
    assert(enc_match_action(v)[0] == "{\"title\":"@[0]);
}

/// Every encoded match opens with a brace.
proof fn lemma_match_first_char(v: MatchV)
    ensures
        enc_match(v).len() >= 1,
        enc_match(v)[0] == '{',
{
    reveal_strlit("{\"title\":");
    assert(enc_match(v)[0] == "{\"title\":"@[0]);
}

/// Progress through an encoded array of match actions.
proof fn lemma_mas_progress(s: Seq<char>, i: int, j: int, v: Seq<MatchActionV>, k: int)
    requires
        enc_at(s, i, enc_match_actions(v)),
        0 <= k < v.len(),
        j == i + 1 + (if k == 0 {
            0int
        } else {
            enc_items(v.take(k), |a: MatchActionV| enc_match_action(a)).len() as int + 1
        }),
    ensures
        enc_at(s, j, enc_match_action(v[k])),
        j + enc_match_action(v[k]).len() < s.len(),
        k + 1 < v.len() ==> s[j + enc_match_action(v[k]).len()] == ',',
        k + 1 == v.len() ==> s[j + enc_match_action(v[k]).len()] == ']',
{
    let f = |a: MatchActionV| enc_match_action(a);
    assert(seq!['['] + (enc_items(v, f) + seq![']']) =~= enc_list(v, f));
    lemma_enc_at_split(s, i, seq!['['], enc_items(v, f) + seq![']']);
    lemma_items_progress(s, i + 1, v, k, f, ']');
}

/// Reads a JSON array, one element per item. Succeeds on, and only on,
/// exactly the fragments that the canonical rendering produces.
#[verifier::rlimit(100)]
fn parse_match_action_list(s: &Vec<char>, i: usize) -> (r: Option<(Vec<MatchAction>, usize)>)
    requires
        i <= s@.len(),
    ensures
        r matches Some(p) ==> enc_at(s@, i as int, enc_match_actions(p.0.deep_view())) && p.1 as int == i
            + enc_match_actions(p.0.deep_view()).len() && p.1 <= s@.len(),
        forall|v: Seq<MatchActionV>|
            enc_at(s@, i as int, #[trigger] enc_match_actions(v)) ==> (r matches Some(p)
                && p.0.deep_view() == v && p.1 as int == i + enc_match_actions(v).len()),
{
    let ghost f = |a: MatchActionV| enc_match_action(a);
    let slen: usize = s.len();
    proof {
        assert forall|v: Seq<MatchActionV>|
            enc_at(s@, i as int, #[trigger] enc_match_actions(v)) implies i < slen && s@[i as int]
            == '[' && enc_at(s@, i + 1, enc_items(v, f) + seq![']']) by {
            lemma_lit_char(s@, i as int, enc_list(v, f), 0);
            assert(seq!['['] + (enc_items(v, f) + seq![']']) =~= enc_list(v, f));
            lemma_enc_at_split(s@, i as int, seq!['['], enc_items(v, f) + seq![']']);
        }
    }
    proof {
        assert forall|v: Seq<MatchActionV>|
            enc_at(s@, i as int, #[trigger] enc_match_actions(v)) implies i + enc_match_actions(v).len() <= slen
            && enc_match_actions(v).len() >= 2 by {
            assert(enc_match_actions(v).len() >= 2);
        }
    }
    if i >= slen || s[i] != '[' {
        return None;
    }
    let mut j: usize = i + 1;
    if j < slen && s[j] == ']' {
        proof {
            assert forall|v: Seq<MatchActionV>|
                enc_at(s@, i as int, #[trigger] enc_match_actions(v)) implies v =~= Seq::<MatchActionV>::empty() by {
                if v.len() > 0 {
                    lemma_items_progress(s@, i + 1, v, 0, f, ']');
                    lemma_lit_char(s@, i + 1, f(v[0]), 0);
                    lemma_match_action_first_char(v[0]);
                }
            }
            let ev = Seq::<MatchActionV>::empty();
            assert(enc_items(ev, f) =~= Seq::<char>::empty());
            assert(s@.subrange(i as int, i + 2) =~= enc_list(ev, f));
        }
        let out: Vec<MatchAction> = Vec::new();
        proof {
            assert(out.deep_view() =~= Seq::<MatchActionV>::empty());
        }
        return Some((out, j + 1));
    }
    let mut out: Vec<MatchAction> = Vec::new();
    proof {
        assert(out.deep_view() =~= Seq::<MatchActionV>::empty());
        assert forall|v: Seq<MatchActionV>|
            enc_at(s@, i as int, #[trigger] enc_match_actions(v)) implies out.deep_view().len() < v.len()
            && out.deep_view() == v.take(out.deep_view().len() as int) by {
            if v.len() == 0 {
                assert(enc_items(v, f) =~= Seq::<char>::empty());
                assert(enc_match_actions(v) =~= seq!['[', ']']);
                lemma_lit_char(s@, i as int, enc_match_actions(v), 1);
                assert(false);
            }
            assert(out.deep_view() =~= v.take(0));
        }
    }
    loop
        invariant
            i + 1 <= j <= slen,
            slen == s@.len(),
            s@[i as int] == '[',
            i < slen,
            out.deep_view().len() == 0 ==> j == i + 1,
            out.deep_view().len() > 0 ==> s@.subrange(i + 1, j as int) == enc_items(
                out.deep_view(),
                f,
            ) + seq![','],
            forall|v: Seq<MatchActionV>|
                enc_at(s@, i as int, #[trigger] enc_match_actions(v)) ==> out.deep_view().len() < v.len()
                    && out.deep_view() == v.take(out.deep_view().len() as int),
            f == (|a: MatchActionV| enc_match_action(a)),
        decreases slen - j,
    {
        let ghost outv = out.deep_view();
        let ghost k = outv.len() as int;
        proof {
            assert forall|v: Seq<MatchActionV>|
                enc_at(s@, i as int, #[trigger] enc_match_actions(v)) implies enc_at(
                s@,
                j as int,
                enc_match_action(v[k]),
            ) by {
                if k > 0 {
                    assert(enc_items(v.take(k), f) == enc_items(outv, f));
                }
                lemma_mas_progress(s@, i as int, j as int, v, k);
            }
        }
        let item = match parse_match_action(s, j) {
            Some(p) => p,
            None => {
                return None;
            },
        };
        let j2: usize = item.1;
        let ghost k2 = j2 as int;
        proof {
            assert forall|v: Seq<MatchActionV>|
                enc_at(s@, i as int, #[trigger] enc_match_actions(v)) implies item.0@ == v[k] && j2
                as int == j + enc_match_action(v[k]).len() && j2 < slen && (k + 1 < v.len() ==> s@[k2]
                == ',') && (k + 1 == v.len() ==> s@[k2] == ']') by {
                if k > 0 {
                    assert(enc_items(v.take(k), f) == enc_items(outv, f));
                }
                lemma_mas_progress(s@, i as int, j as int, v, k);
            }
        }
        out.push(item.0);
        proof {
            assert(out.deep_view() =~= outv.push(item.0@));
            lemma_enc_items_snoc(outv, item.0@, f);
        }
        if j2 >= slen {
            proof {
                assert forall|v: Seq<MatchActionV>|
                    !enc_at(s@, i as int, #[trigger] enc_match_actions(v)) by {}
            }
            return None;
        }
        let c = s[j2];
        if c == ']' {
            proof {
                assert forall|v: Seq<MatchActionV>|
                    enc_at(s@, i as int, #[trigger] enc_match_actions(v)) implies out.deep_view() == v
                    && j2 + 1 == i + enc_match_actions(v).len() by {
                    if k + 1 < v.len() {
                        assert(s@[k2] == ',');
                        assert(false);
                    }
                    assert(out.deep_view() =~= v);
                }
                // the fragment we consumed is exactly the rendering of `out`
                if k > 0 {
                    assert(s@.subrange(i + 1, j2 as int) =~= (enc_items(outv, f) + seq![','])
                        + enc_match_action(item.0@));
                } else {
                    assert(s@.subrange(i + 1, j2 as int) =~= enc_match_action(item.0@));
                }
                assert(s@.subrange(i + 1, j2 as int) =~= enc_items(out.deep_view(), f));
                assert(s@.subrange(j2 as int, j2 + 1) =~= seq![']']);
                assert(s@.subrange(i as int, i + 1) =~= seq!['[']);
                lemma_enc_at_join(s@, i + 1, enc_items(out.deep_view(), f), seq![']']);
                lemma_enc_at_join(
                    s@,
                    i as int,
                    seq!['['],
                    enc_items(out.deep_view(), f) + seq![']'],
                );
                assert(seq!['['] + (enc_items(out.deep_view(), f) + seq![']']) =~= enc_list(
                    out.deep_view(),
                    f,
                ));
            }
            return Some((out, j2 + 1));
        } else if c == ',' {
            proof {
                assert forall|v: Seq<MatchActionV>|
                    enc_at(s@, i as int, #[trigger] enc_match_actions(v)) implies out.deep_view().len()
                    < v.len() && out.deep_view() == v.take(out.deep_view().len() as int) by {
                    if k + 1 == v.len() {
                        assert(s@[k2] == ']');
                        assert(false);
                    }
                    assert(out.deep_view() =~= v.take(k + 1));
                }
                if k > 0 {
                    assert(s@.subrange(i + 1, j2 + 1) =~= ((enc_items(outv, f) + seq![','])
                        + enc_match_action(item.0@)) + seq![',']);
                } else {
                    assert(s@.subrange(i + 1, j2 + 1) =~= enc_match_action(item.0@) + seq![',']);
                }
                assert(s@.subrange(i + 1, j2 + 1) =~= enc_items(out.deep_view(), f) + seq![',']);
            }
            j = j2 + 1;
        } else {
            proof {
                assert forall|v: Seq<MatchActionV>|
                    !enc_at(s@, i as int, #[trigger] enc_match_actions(v)) by {}
            }
            return None;
        }
    }
}

/// The opening run of an encoded match: title, description and icon,
/// up to and with the `"actions":` key.
pub open spec fn enc_match_head(t: Seq<char>, d: Seq<char>, ic: Option<Seq<char>>) -> Seq<char> {
    "{\"title\":"@ + enc_str(t) + ",\"description\":"@ + enc_str(d) + ",\"icon\":"@ + enc_opt_str(
        ic,
    ) + ",\"actions\":"@
}

/// The closing run of an encoded match: actions, score, closing brace.
pub open spec fn enc_match_tail(a: Seq<MatchActionV>, sc: u32) -> Seq<char> {
    enc_match_actions(a) + ",\"score\":"@ + enc_score(sc) + seq!['}']
}

/// An encoded match is its head run followed by its tail run.
proof fn lemma_match_head_tail(v: MatchV)
    ensures
        enc_match(v) == enc_match_head(v.title, v.description, v.icon) + enc_match_tail(
            v.actions,
            v.score,
        ),
{
    assert(enc_match(v) =~= enc_match_head(v.title, v.description, v.icon) + enc_match_tail(
        v.actions,
        v.score,
    ));
}

/// Where the pieces of an encoded match head sit.
proof fn lemma_match_head_parts(s: Seq<char>, i: int, t: Seq<char>, d: Seq<char>, ic: Option<Seq<char>>)
    requires
        enc_at(s, i, enc_match_head(t, d, ic)),
    ensures
        enc_at(s, i, "{\"title\":"@),
        enc_at(s, i + "{\"title\":"@.len(), enc_str(t)),
        enc_at(s, i + "{\"title\":"@.len() + enc_str(t).len(), ",\"description\":"@),
        enc_at(
            s,
            i + "{\"title\":"@.len() + enc_str(t).len() + ",\"description\":"@.len(),
            enc_str(d),
        ),
        enc_at(
            s,
            i + "{\"title\":"@.len() + enc_str(t).len() + ",\"description\":"@.len() + enc_str(
                d,
            ).len(),
            ",\"icon\":"@,
        ),
        enc_at(
            s,
            i + "{\"title\":"@.len() + enc_str(t).len() + ",\"description\":"@.len() + enc_str(
                d,
            ).len() + ",\"icon\":"@.len(),
            enc_opt_str(ic),
        ),
        enc_at(
            s,
            i + "{\"title\":"@.len() + enc_str(t).len() + ",\"description\":"@.len() + enc_str(
                d,
            ).len() + ",\"icon\":"@.len() + enc_opt_str(ic).len(),
            ",\"actions\":"@,
        ),
        i + enc_match_head(t, d, ic).len() == i + "{\"title\":"@.len() + enc_str(t).len()
            + ",\"description\":"@.len() + enc_str(d).len() + ",\"icon\":"@.len() + enc_opt_str(
            ic,
        ).len() + ",\"actions\":"@.len(),
{
    let l1 = "{\"title\":"@;
    let l2 = ",\"description\":"@;
    let l3 = ",\"icon\":"@;
    let l4 = ",\"actions\":"@;
    assert(enc_match_head(t, d, ic) =~= l1 + (enc_str(t) + (l2 + (enc_str(d) + (l3 + (enc_opt_str(
        ic,
    ) + l4))))));
    lemma_enc_at_split(s, i, l1, enc_str(t) + (l2 + (enc_str(d) + (l3 + (enc_opt_str(ic) + l4)))));
    lemma_enc_at_split(
        s,
        i + l1.len(),
        enc_str(t),
        l2 + (enc_str(d) + (l3 + (enc_opt_str(ic) + l4))),
    );
    lemma_enc_at_split(
        s,
        i + l1.len() + enc_str(t).len(),
        l2,
        enc_str(d) + (l3 + (enc_opt_str(ic) + l4)),
    );
    lemma_enc_at_split(
        s,
        i + l1.len() + enc_str(t).len() + l2.len(),
        enc_str(d),
        l3 + (enc_opt_str(ic) + l4),
    );
    lemma_enc_at_split(
        s,
        i + l1.len() + enc_str(t).len() + l2.len() + enc_str(d).len(),
        l3,
        enc_opt_str(ic) + l4,
    );
    lemma_enc_at_split(
        s,
        i + l1.len() + enc_str(t).len() + l2.len() + enc_str(d).len() + l3.len(),
        enc_opt_str(ic),
        l4,
    );
}

/// Where the pieces of an encoded match tail sit.
proof fn lemma_match_tail_parts(s: Seq<char>, i: int, a: Seq<MatchActionV>, sc: u32)
    requires
        enc_at(s, i, enc_match_tail(a, sc)),
    ensures
        enc_at(s, i, enc_match_actions(a)),
        enc_at(s, i + enc_match_actions(a).len(), ",\"score\":"@),
        enc_at(s, i + enc_match_actions(a).len() + ",\"score\":"@.len(), enc_score(sc)),
        enc_at(
            s,
            i + enc_match_actions(a).len() + ",\"score\":"@.len() + enc_score(sc).len(),
            seq!['}'],
        ),
        i + enc_match_tail(a, sc).len() == i + enc_match_actions(a).len() + ",\"score\":"@.len()
            + enc_score(sc).len() + 1,
{
    let l5 = ",\"score\":"@;
    assert(enc_match_tail(a, sc) =~= enc_match_actions(a) + (l5 + (enc_score(sc) + seq!['}'])));
    lemma_enc_at_split(s, i, enc_match_actions(a), l5 + (enc_score(sc) + seq!['}']));
    lemma_enc_at_split(s, i + enc_match_actions(a).len(), l5, enc_score(sc) + seq!['}']);
    lemma_enc_at_split(
        s,
        i + enc_match_actions(a).len() + l5.len(),
        enc_score(sc),
        seq!['}'],
    );
}

/// Reads the head of a match object: title, description, icon.
#[verifier::rlimit(100)]
fn parse_match_head(s: &Vec<char>, i: usize) -> (r: Option<(String, String, Option<String>, usize)>)
    requires
        i <= s@.len(),
    ensures
        r matches Some(p) ==> enc_at(s@, i as int, enc_match_head(p.0@, p.1@, p.2.deep_view()))
            && p.3 as int == i + enc_match_head(p.0@, p.1@, p.2.deep_view()).len() && p.3
            <= s@.len(),
        forall|t: Seq<char>, d: Seq<char>, ic: Option<Seq<char>>|
            enc_at(s@, i as int, #[trigger] enc_match_head(t, d, ic)) ==> (r matches Some(p)
                && p.0@ == t && p.1@ == d && p.2.deep_view() == ic && p.3 as int == i
                + enc_match_head(t, d, ic).len()),
{
    let slen: usize = s.len();
    proof {
        reveal_strlit("{\"title\":");
        reveal_strlit(",\"description\":");
        reveal_strlit(",\"icon\":");
        reveal_strlit(",\"actions\":");
    }
    let j1 = match skip_lit(s, i, "{\"title\":") {
        Some(j) => j,
        None => {
            proof {
                assert forall|t: Seq<char>, d: Seq<char>, ic: Option<Seq<char>>|
                    !enc_at(s@, i as int, #[trigger] enc_match_head(t, d, ic)) by {
                    if enc_at(s@, i as int, enc_match_head(t, d, ic)) {
                        lemma_match_head_parts(s@, i as int, t, d, ic);
                    }
                }
            }
            return None;
        },
    };
    proof {
        assert forall|t: Seq<char>, d: Seq<char>, ic: Option<Seq<char>>|
            enc_at(s@, i as int, #[trigger] enc_match_head(t, d, ic)) implies enc_at(
            s@,
            j1 as int,
            enc_str(t),
        ) by {
            lemma_match_head_parts(s@, i as int, t, d, ic);
        }
    }
    let title = match parse_string(s, j1) {
        Some(p) => p,
        None => {
            proof {
                assert forall|t: Seq<char>, d: Seq<char>, ic: Option<Seq<char>>|
                    !enc_at(s@, i as int, #[trigger] enc_match_head(t, d, ic)) by {}
            }
            return None;
        },
    };
    let j2: usize = title.1;
    let j3 = match skip_lit(s, j2, ",\"description\":") {
        Some(j) => j,
        None => {
            proof {
                assert forall|t: Seq<char>, d: Seq<char>, ic: Option<Seq<char>>|
                    !enc_at(s@, i as int, #[trigger] enc_match_head(t, d, ic)) by {
                    if enc_at(s@, i as int, enc_match_head(t, d, ic)) {
                        lemma_match_head_parts(s@, i as int, t, d, ic);
                        assert(title.0@ == t);
                    }
                }
            }
            return None;
        },
    };
    let desc = match parse_string(s, j3) {
        Some(p) => p,
        None => {
            proof {
                assert forall|t: Seq<char>, d: Seq<char>, ic: Option<Seq<char>>|
                    !enc_at(s@, i as int, #[trigger] enc_match_head(t, d, ic)) by {
                    if enc_at(s@, i as int, enc_match_head(t, d, ic)) {
                        lemma_match_head_parts(s@, i as int, t, d, ic);
                        assert(title.0@ == t);
                    }
                }
            }
            return None;
        },
    };
    let j4: usize = desc.1;
    let j5 = match skip_lit(s, j4, ",\"icon\":") {
        Some(j) => j,
        None => {
            proof {
                assert forall|t: Seq<char>, d: Seq<char>, ic: Option<Seq<char>>|
                    !enc_at(s@, i as int, #[trigger] enc_match_head(t, d, ic)) by {
                    if enc_at(s@, i as int, enc_match_head(t, d, ic)) {
                        lemma_match_head_parts(s@, i as int, t, d, ic);
                        assert(title.0@ == t);
                        assert(desc.0@ == d);
                    }
                }
            }
            return None;
        },
    };
    let icon = match parse_opt_str(s, j5) {
        Some(p) => p,
        None => {
            proof {
                assert forall|t: Seq<char>, d: Seq<char>, ic: Option<Seq<char>>|
                    !enc_at(s@, i as int, #[trigger] enc_match_head(t, d, ic)) by {
                    if enc_at(s@, i as int, enc_match_head(t, d, ic)) {
                        lemma_match_head_parts(s@, i as int, t, d, ic);
                        assert(title.0@ == t);
                        assert(desc.0@ == d);
                    }
                }
            }
            return None;
        },
    };
    let j6: usize = icon.1;
    let j7 = match skip_lit(s, j6, ",\"actions\":") {
        Some(j) => j,
        None => {
            proof {
                assert forall|t: Seq<char>, d: Seq<char>, ic: Option<Seq<char>>|
                    !enc_at(s@, i as int, #[trigger] enc_match_head(t, d, ic)) by {
                    if enc_at(s@, i as int, enc_match_head(t, d, ic)) {
                        lemma_match_head_parts(s@, i as int, t, d, ic);
                        assert(title.0@ == t);
                        assert(desc.0@ == d);
                        assert(icon.0.deep_view() == ic);
                    }
                }
            }
            return None;
        },
    };
    proof {
        lemma_enc_at_join(s@, j5 as int, enc_opt_str(icon.0.deep_view()), ",\"actions\":"@);
        lemma_enc_at_join(
            s@,
            j4 as int,
            ",\"icon\":"@,
            enc_opt_str(icon.0.deep_view()) + ",\"actions\":"@,
        );
        lemma_enc_at_join(
            s@,
            j3 as int,
            enc_str(desc.0@),
            ",\"icon\":"@ + (enc_opt_str(icon.0.deep_view()) + ",\"actions\":"@),
        );
        lemma_enc_at_join(
            s@,
            j2 as int,
            ",\"description\":"@,
            enc_str(desc.0@) + (",\"icon\":"@ + (enc_opt_str(icon.0.deep_view())
                + ",\"actions\":"@)),
        );
        lemma_enc_at_join(
            s@,
            j1 as int,
            enc_str(title.0@),
            ",\"description\":"@ + (enc_str(desc.0@) + (",\"icon\":"@ + (enc_opt_str(
                icon.0.deep_view(),
            ) + ",\"actions\":"@))),
        );
        lemma_enc_at_join(
            s@,
            i as int,
            "{\"title\":"@,
            enc_str(title.0@) + (",\"description\":"@ + (enc_str(desc.0@) + (",\"icon\":"@ + (
            enc_opt_str(icon.0.deep_view()) + ",\"actions\":"@)))),
        );
        assert("{\"title\":"@ + (enc_str(title.0@) + (",\"description\":"@ + (enc_str(desc.0@) + (
        ",\"icon\":"@ + (enc_opt_str(icon.0.deep_view()) + ",\"actions\":"@)))))
            =~= enc_match_head(title.0@, desc.0@, icon.0.deep_view()));
        assert forall|t: Seq<char>, d: Seq<char>, ic: Option<Seq<char>>|
            enc_at(s@, i as int, #[trigger] enc_match_head(t, d, ic)) implies title.0@ == t
            && desc.0@ == d && icon.0.deep_view() == ic && j7 as int == i + enc_match_head(
            t,
            d,
            ic,
        ).len() by {
            lemma_match_head_parts(s@, i as int, t, d, ic);
        }
    }
    Some((title.0, desc.0, icon.0, j7))
}

/// Reads the tail of a match object: actions and score.
#[verifier::rlimit(100)]
fn parse_match_tail(s: &Vec<char>, i: usize) -> (r: Option<(Vec<MatchAction>, u32, usize)>)
    requires
        i <= s@.len(),
    ensures
        r matches Some(p) ==> enc_at(s@, i as int, enc_match_tail(p.0.deep_view(), p.1)) && p.2
            as int == i + enc_match_tail(p.0.deep_view(), p.1).len() && p.2 <= s@.len(),
        forall|a: Seq<MatchActionV>, sc: u32|
            enc_at(s@, i as int, #[trigger] enc_match_tail(a, sc)) ==> (r matches Some(p)
                && p.0.deep_view() == a && p.1 == sc && p.2 as int == i + enc_match_tail(
                a,
                sc,
            ).len()),
{
    let slen: usize = s.len();
    proof {
        reveal_strlit(",\"score\":");
        assert forall|a: Seq<MatchActionV>, sc: u32|
            enc_at(s@, i as int, #[trigger] enc_match_tail(a, sc)) implies enc_at(
            s@,
            i as int,
            enc_match_actions(a),
        ) by {
            lemma_match_tail_parts(s@, i as int, a, sc);
        }
    }
    let acts = match parse_match_action_list(s, i) {
        Some(p) => p,
        None => {
            proof {
                assert forall|a: Seq<MatchActionV>, sc: u32|
                    !enc_at(s@, i as int, #[trigger] enc_match_tail(a, sc)) by {}
            }
            return None;
        },
    };
    let j8: usize = acts.1;
    let j9 = match skip_lit(s, j8, ",\"score\":") {
        Some(j) => j,
        None => {
            proof {
                assert forall|a: Seq<MatchActionV>, sc: u32|
                    !enc_at(s@, i as int, #[trigger] enc_match_tail(a, sc)) by {
                    if enc_at(s@, i as int, enc_match_tail(a, sc)) {
                        lemma_match_tail_parts(s@, i as int, a, sc);
                        assert(acts.0.deep_view() == a);
                    }
                }
            }
            return None;
        },
    };
    let score = match parse_score(s, j9) {
        Some(p) => p,
        None => {
            proof {
                assert forall|a: Seq<MatchActionV>, sc: u32|
                    !enc_at(s@, i as int, #[trigger] enc_match_tail(a, sc)) by {
                    if enc_at(s@, i as int, enc_match_tail(a, sc)) {
                        lemma_match_tail_parts(s@, i as int, a, sc);
                        assert(acts.0.deep_view() == a);
                    }
                }
            }
            return None;
        },
    };
    let j10: usize = score.1;
    if j10 >= slen || s[j10] != '}' {
        proof {
            assert forall|a: Seq<MatchActionV>, sc: u32|
                !enc_at(s@, i as int, #[trigger] enc_match_tail(a, sc)) by {
                if enc_at(s@, i as int, enc_match_tail(a, sc)) {
                    lemma_match_tail_parts(s@, i as int, a, sc);
                    assert(acts.0.deep_view() == a);
                    assert(score.0 == sc);
                    lemma_lit_char(
                        s@,
                        i + enc_match_actions(a).len() + ",\"score\":"@.len() + enc_score(
                            sc,
                        ).len(),
                        seq!['}'],
                        0,
                    );
                }
            }
        }
        return None;
    }
    proof {
        assert(s@.subrange(j10 as int, j10 + 1) =~= seq!['}']);
        lemma_enc_at_join(s@, j9 as int, enc_score(score.0), seq!['}']);
        lemma_enc_at_join(s@, j8 as int, ",\"score\":"@, enc_score(score.0) + seq!['}']);
        lemma_enc_at_join(
            s@,
            i as int,
            enc_match_actions(acts.0.deep_view()),
            ",\"score\":"@ + (enc_score(score.0) + seq!['}']),
        );
        assert(enc_match_actions(acts.0.deep_view()) + (",\"score\":"@ + (enc_score(score.0)
            + seq!['}'])) =~= enc_match_tail(acts.0.deep_view(), score.0));
        assert forall|a: Seq<MatchActionV>, sc: u32|
            enc_at(s@, i as int, #[trigger] enc_match_tail(a, sc)) implies acts.0.deep_view() == a
            && score.0 == sc && j10 + 1 == i + enc_match_tail(a, sc).len() by {
            lemma_match_tail_parts(s@, i as int, a, sc);
        }
    }
    Some((acts.0, score.0, j10 + 1))
}

/// Reads one match object. Succeeds on, and only on, exactly the fragments
/// that [`enc_match`] produces.
fn parse_match(s: &Vec<char>, i: usize) -> (r: Option<(Match, usize)>)
    requires
        i <= s@.len(),
    ensures
        r matches Some(p) ==> enc_at(s@, i as int, enc_match(p.0@)) && p.1 as int == i + enc_match(
            p.0@,
        ).len() && p.1 <= s@.len(),
        forall|v: MatchV|
            enc_at(s@, i as int, #[trigger] enc_match(v)) ==> (r matches Some(p) && p.0@ == v
                && p.1 as int == i + enc_match(v).len()),
{
    proof {
        assert forall|v: MatchV|
            enc_at(s@, i as int, #[trigger] enc_match(v)) implies enc_at(
            s@,
            i as int,
            enc_match_head(v.title, v.description, v.icon),
        ) && enc_at(
            s@,
            i + enc_match_head(v.title, v.description, v.icon).len(),
            enc_match_tail(v.actions, v.score),
        ) by {
            lemma_match_head_tail(v);
            lemma_enc_at_split(
                s@,
                i as int,
                enc_match_head(v.title, v.description, v.icon),
                enc_match_tail(v.actions, v.score),
            );
        }
    }
    let head = match parse_match_head(s, i) {
        Some(p) => p,
        None => {
            proof {
                assert forall|v: MatchV| !enc_at(s@, i as int, #[trigger] enc_match(v)) by {}
            }
            return None;
        },
    };
    let jm: usize = head.3;
    let tail = match parse_match_tail(s, jm) {
        Some(p) => p,
        None => {
            proof {
                assert forall|v: MatchV| !enc_at(s@, i as int, #[trigger] enc_match(v)) by {}
            }
            return None;
        },
    };
    let out = Match {
        title: head.0,
        description: head.1,
        icon: head.2,
        actions: tail.0,
        score: Score { millis: tail.1 },
    };
    proof {
        lemma_enc_at_join(
            s@,
            i as int,
            enc_match_head(out@.title, out@.description, out@.icon),
            enc_match_tail(out@.actions, out@.score),
        );
        lemma_match_head_tail(out@);
        assert forall|v: MatchV|
            enc_at(s@, i as int, #[trigger] enc_match(v)) implies out@ == v && tail.2 as int == i
            + enc_match(v).len() by {
            lemma_match_head_tail(v);
        }
    }
    Some((out, tail.2))
}

/// Progress through an encoded array of matches.
proof fn lemma_matches_progress(s: Seq<char>, i: int, j: int, v: Seq<MatchV>, k: int)
    requires
        enc_at(s, i, enc_matches(v)),
        0 <= k < v.len(),
        j == i + 1 + (if k == 0 {
            0int
        } else {
            enc_items(v.take(k), |m: MatchV| enc_match(m)).len() as int + 1
        }),
    ensures
        enc_at(s, j, enc_match(v[k])),
        j + enc_match(v[k]).len() < s.len(),
        k + 1 < v.len() ==> s[j + enc_match(v[k]).len()] == ',',
        k + 1 == v.len() ==> s[j + enc_match(v[k]).len()] == ']',
{
    let f = |m: MatchV| enc_match(m);
    assert(seq!['['] + (enc_items(v, f) + seq![']']) =~= enc_list(v, f));
    lemma_enc_at_split(s, i, seq!['['], enc_items(v, f) + seq![']']);
    lemma_items_progress(s, i + 1, v, k, f, ']');
}

/// Reads a JSON array, one element per item. Succeeds on, and only on,
/// exactly the fragments that the canonical rendering produces.
#[verifier::rlimit(100)]
#[verifier::spinoff_prover]
fn parse_match_list(s: &Vec<char>, i: usize) -> (r: Option<(Vec<Match>, usize)>)
    requires
        i <= s@.len(),
    ensures
        r matches Some(p) ==> enc_at(s@, i as int, enc_matches(p.0.deep_view())) && p.1 as int == i
            + enc_matches(p.0.deep_view()).len() && p.1 <= s@.len(),
        forall|v: Seq<MatchV>|
            enc_at(s@, i as int, #[trigger] enc_matches(v)) ==> (r matches Some(p)
                && p.0.deep_view() == v && p.1 as int == i + enc_matches(v).len()),
{
    let ghost f = |m: MatchV| enc_match(m);
    let slen: usize = s.len();
    proof {
        assert forall|v: Seq<MatchV>|
            enc_at(s@, i as int, #[trigger] enc_matches(v)) implies i < slen && s@[i as int]
            == '[' && enc_at(s@, i + 1, enc_items(v, f) + seq![']']) by {
            lemma_lit_char(s@, i as int, enc_list(v, f), 0);
            assert(seq!['['] + (enc_items(v, f) + seq![']']) =~= enc_list(v, f));
            lemma_enc_at_split(s@, i as int, seq!['['], enc_items(v, f) + seq![']']);
        }
    }
    proof {
        assert forall|v: Seq<MatchV>|
            enc_at(s@, i as int, #[trigger] enc_matches(v)) implies i + enc_matches(v).len() <= slen
            && enc_matches(v).len() >= 2 by {
            assert(enc_matches(v).len() >= 2);
        }
    }
    if i >= slen || s[i] != '[' {
        return None;
    }
    let mut j: usize = i + 1;
    if j < slen && s[j] == ']' {
        proof {
            assert forall|v: Seq<MatchV>|
                enc_at(s@, i as int, #[trigger] enc_matches(v)) implies v =~= Seq::<MatchV>::empty() by {
                if v.len() > 0 {
                    lemma_items_progress(s@, i + 1, v, 0, f, ']');
                    lemma_lit_char(s@, i + 1, f(v[0]), 0);
                    lemma_match_first_char(v[0]);
                }
            }
            let ev = Seq::<MatchV>::empty();
            assert(enc_items(ev, f) =~= Seq::<char>::empty());
            assert(s@.subrange(i as int, i + 2) =~= enc_list(ev, f));
        }
        let out: Vec<Match> = Vec::new();
        proof {
            assert(out.deep_view() =~= Seq::<MatchV>::empty());
        }
        return Some((out, j + 1));
    }
    let mut out: Vec<Match> = Vec::new();
    proof {
        assert(out.deep_view() =~= Seq::<MatchV>::empty());
        assert forall|v: Seq<MatchV>|
            enc_at(s@, i as int, #[trigger] enc_matches(v)) implies out.deep_view().len() < v.len()
            && out.deep_view() == v.take(out.deep_view().len() as int) by {
            if v.len() == 0 {
                assert(enc_items(v, f) =~= Seq::<char>::empty());
                assert(enc_matches(v) =~= seq!['[', ']']);
                lemma_lit_char(s@, i as int, enc_matches(v), 1);
                assert(false);
            }
            assert(out.deep_view() =~= v.take(0));
        }
    }
    loop
        invariant
            i + 1 <= j <= slen,
            slen == s@.len(),
            s@[i as int] == '[',
            i < slen,
            out.deep_view().len() == 0 ==> j == i + 1,
            out.deep_view().len() > 0 ==> s@.subrange(i + 1, j as int) == enc_items(
                out.deep_view(),
                f,
            ) + seq![','],
            forall|v: Seq<MatchV>|
                enc_at(s@, i as int, #[trigger] enc_matches(v)) ==> out.deep_view().len() < v.len()
                    && out.deep_view() == v.take(out.deep_view().len() as int),
            f == (|m: MatchV| enc_match(m)),
        decreases slen - j,
    {
        let ghost outv = out.deep_view();
        let ghost k = outv.len() as int;
        proof {
            assert forall|v: Seq<MatchV>|
                enc_at(s@, i as int, #[trigger] enc_matches(v)) implies enc_at(
                s@,
                j as int,
                enc_match(v[k]),
            ) by {
                if k > 0 {
                    assert(enc_items(v.take(k), f) == enc_items(outv, f));
                }
                lemma_matches_progress(s@, i as int, j as int, v, k);
            }
        }
        let item = match parse_match(s, j) {
            Some(p) => p,
            None => {
                return None;
            },
        };
        let j2: usize = item.1;
        let ghost k2 = j2 as int;
        proof {
            assert forall|v: Seq<MatchV>|
                enc_at(s@, i as int, #[trigger] enc_matches(v)) implies item.0@ == v[k] && j2
                as int == j + enc_match(v[k]).len() && j2 < slen && (k + 1 < v.len() ==> s@[k2]
                == ',') && (k + 1 == v.len() ==> s@[k2] == ']') by {
                if k > 0 {
                    assert(enc_items(v.take(k), f) == enc_items(outv, f));
                }
                lemma_matches_progress(s@, i as int, j as int, v, k);
            }
        }
        out.push(item.0);
        proof {
            assert(out.deep_view() =~= outv.push(item.0@));
            lemma_enc_items_snoc(outv, item.0@, f);
        }
        if j2 >= slen {
            proof {
                assert forall|v: Seq<MatchV>|
                    !enc_at(s@, i as int, #[trigger] enc_matches(v)) by {}
            }
            return None;
        }
        let c = s[j2];
        if c == ']' {
            proof {
                assert forall|v: Seq<MatchV>|
                    enc_at(s@, i as int, #[trigger] enc_matches(v)) implies out.deep_view() == v
                    && j2 + 1 == i + enc_matches(v).len() by {
                    if k + 1 < v.len() {
                        assert(s@[k2] == ',');
                        assert(false);
                    }
                    assert(out.deep_view() =~= v);
                }
                // the fragment we consumed is exactly the rendering of `out`
                if k > 0 {
                    assert(s@.subrange(i + 1, j2 as int) =~= (enc_items(outv, f) + seq![','])
                        + enc_match(item.0@));
                } else {
                    assert(s@.subrange(i + 1, j2 as int) =~= enc_match(item.0@));
                }
                assert(s@.subrange(i + 1, j2 as int) =~= enc_items(out.deep_view(), f));
                assert(s@.subrange(j2 as int, j2 + 1) =~= seq![']']);
                assert(s@.subrange(i as int, i + 1) =~= seq!['[']);
                lemma_enc_at_join(s@, i + 1, enc_items(out.deep_view(), f), seq![']']);
                lemma_enc_at_join(
                    s@,
                    i as int,
                    seq!['['],
                    enc_items(out.deep_view(), f) + seq![']'],
                );
                assert(seq!['['] + (enc_items(out.deep_view(), f) + seq![']']) =~= enc_list(
                    out.deep_view(),
                    f,
                ));
            }
            return Some((out, j2 + 1));
        } else if c == ',' {
            proof {
                assert forall|v: Seq<MatchV>|
                    enc_at(s@, i as int, #[trigger] enc_matches(v)) implies out.deep_view().len()
                    < v.len() && out.deep_view() == v.take(out.deep_view().len() as int) by {
                    if k + 1 == v.len() {
                        assert(s@[k2] == ']');
                        assert(false);
                    }
                    assert(out.deep_view() =~= v.take(k + 1));
                }
                if k > 0 {
                    assert(s@.subrange(i + 1, j2 + 1) =~= ((enc_items(outv, f) + seq![','])
                        + enc_match(item.0@)) + seq![',']);
                } else {
                    assert(s@.subrange(i + 1, j2 + 1) =~= enc_match(item.0@) + seq![',']);
                }
                assert(s@.subrange(i + 1, j2 + 1) =~= enc_items(out.deep_view(), f) + seq![',']);
            }
            j = j2 + 1;
        } else {
            proof {
                assert forall|v: Seq<MatchV>|
                    !enc_at(s@, i as int, #[trigger] enc_matches(v)) by {}
            }
            return None;
        }
    }
}

/// Where the pieces of an encoded action sit, by variant.
#[verifier::rlimit(100)]
proof fn lemma_action_parts(s: Seq<char>, i: int, v: ActionV)
    requires
        enc_at(s, i, enc_action(v)),
    ensures
        v matches ActionV::Exec { command, args } ==> enc_at(s, i, "{\"type\":\"exec\",\"command\":"@)
            && enc_at(s, i + "{\"type\":\"exec\",\"command\":"@.len(), enc_str(command)) && enc_at(
            s,
            i + "{\"type\":\"exec\",\"command\":"@.len() + enc_str(command).len(),
            ",\"args\":"@,
        ) && enc_at(
            s,
            i + "{\"type\":\"exec\",\"command\":"@.len() + enc_str(command).len()
                + ",\"args\":"@.len(),
            enc_args(args),
        ) && enc_at(
            s,
            i + "{\"type\":\"exec\",\"command\":"@.len() + enc_str(command).len()
                + ",\"args\":"@.len() + enc_args(args).len(),
            seq!['}'],
        ) && i + enc_action(v).len() == i + "{\"type\":\"exec\",\"command\":"@.len() + enc_str(
            command,
        ).len() + ",\"args\":"@.len() + enc_args(args).len() + 1,
        v matches ActionV::Launch { app_id, args, new_instance } ==> enc_at(
            s,
            i,
            "{\"type\":\"launch\",\"app_id\":"@,
        ) && enc_at(s, i + "{\"type\":\"launch\",\"app_id\":"@.len(), enc_str(app_id)) && enc_at(
            s,
            i + "{\"type\":\"launch\",\"app_id\":"@.len() + enc_str(app_id).len(),
            ",\"args\":"@,
        ) && enc_at(
            s,
            i + "{\"type\":\"launch\",\"app_id\":"@.len() + enc_str(app_id).len()
                + ",\"args\":"@.len(),
            enc_args(args),
        ) && enc_at(
            s,
            i + "{\"type\":\"launch\",\"app_id\":"@.len() + enc_str(app_id).len()
                + ",\"args\":"@.len() + enc_args(args).len(),
            ",\"new_instance\":"@,
        ) && enc_at(
            s,
            i + "{\"type\":\"launch\",\"app_id\":"@.len() + enc_str(app_id).len()
                + ",\"args\":"@.len() + enc_args(args).len() + ",\"new_instance\":"@.len(),
            enc_bool(new_instance),
        ) && enc_at(
            s,
            i + "{\"type\":\"launch\",\"app_id\":"@.len() + enc_str(app_id).len()
                + ",\"args\":"@.len() + enc_args(args).len() + ",\"new_instance\":"@.len()
                + enc_bool(new_instance).len(),
            seq!['}'],
        ) && i + enc_action(v).len() == i + "{\"type\":\"launch\",\"app_id\":"@.len() + enc_str(
            app_id,
        ).len() + ",\"args\":"@.len() + enc_args(args).len() + ",\"new_instance\":"@.len()
            + enc_bool(new_instance).len() + 1,
        v matches ActionV::Open { uri } ==> enc_at(s, i, "{\"type\":\"open\",\"uri\":"@) && enc_at(
            s,
            i + "{\"type\":\"open\",\"uri\":"@.len(),
            enc_str(uri),
        ) && enc_at(
            s,
            i + "{\"type\":\"open\",\"uri\":"@.len() + enc_str(uri).len(),
            seq!['}'],
        ) && i + enc_action(v).len() == i + "{\"type\":\"open\",\"uri\":"@.len() + enc_str(
            uri,
        ).len() + 1,
        v matches ActionV::Clipboard { text } ==> enc_at(s, i, "{\"type\":\"clipboard\",\"text\":"@)
            && enc_at(s, i + "{\"type\":\"clipboard\",\"text\":"@.len(), enc_str(text)) && enc_at(
            s,
            i + "{\"type\":\"clipboard\",\"text\":"@.len() + enc_str(text).len(),
            seq!['}'],
        ) && i + enc_action(v).len() == i + "{\"type\":\"clipboard\",\"text\":"@.len() + enc_str(
            text,
        ).len() + 1,
        v matches ActionV::Callback { key, params } ==> enc_at(
            s,
            i,
            "{\"type\":\"callback\",\"key\":"@,
        ) && enc_at(s, i + "{\"type\":\"callback\",\"key\":"@.len(), enc_str(key)) && enc_at(
            s,
            i + "{\"type\":\"callback\",\"key\":"@.len() + enc_str(key).len(),
            ",\"params\":"@,
        ) && enc_at(
            s,
            i + "{\"type\":\"callback\",\"key\":"@.len() + enc_str(key).len()
                + ",\"params\":"@.len(),
            enc_params(params),
        ) && enc_at(
            s,
            i + "{\"type\":\"callback\",\"key\":"@.len() + enc_str(key).len()
                + ",\"params\":"@.len() + enc_params(params).len(),
            seq!['}'],
        ) && i + enc_action(v).len() == i + "{\"type\":\"callback\",\"key\":"@.len() + enc_str(
            key,
        ).len() + ",\"params\":"@.len() + enc_params(params).len() + 1,
{
    match v {
        ActionV::Exec { command, args } => {
            let l1 = "{\"type\":\"exec\",\"command\":"@;
            let l2 = ",\"args\":"@;
            assert(enc_action(v) =~= l1 + (enc_str(command) + (l2 + (enc_args(args) + seq![
                '}',
            ]))));
            lemma_enc_at_split(s, i, l1, enc_str(command) + (l2 + (enc_args(args) + seq!['}'])));
            lemma_enc_at_split(
                s,
                i + l1.len(),
                enc_str(command),
                l2 + (enc_args(args) + seq!['}']),
            );
            lemma_enc_at_split(
                s,
                i + l1.len() + enc_str(command).len(),
                l2,
                enc_args(args) + seq!['}'],
            );
            lemma_enc_at_split(
                s,
                i + l1.len() + enc_str(command).len() + l2.len(),
                enc_args(args),
                seq!['}'],
            );
        },
        ActionV::Launch { app_id, args, new_instance } => {
            let l1 = "{\"type\":\"launch\",\"app_id\":"@;
            let l2 = ",\"args\":"@;
            let l3 = ",\"new_instance\":"@;
            assert(enc_action(v) =~= l1 + (enc_str(app_id) + (l2 + (enc_args(args) + (l3 + (
            enc_bool(new_instance) + seq!['}']))))));
            lemma_enc_at_split(
                s,
                i,
                l1,
                enc_str(app_id) + (l2 + (enc_args(args) + (l3 + (enc_bool(new_instance) + seq![
                    '}',
                ])))),
            );
            lemma_enc_at_split(
                s,
                i + l1.len(),
                enc_str(app_id),
                l2 + (enc_args(args) + (l3 + (enc_bool(new_instance) + seq!['}']))),
            );
            lemma_enc_at_split(
                s,
                i + l1.len() + enc_str(app_id).len(),
                l2,
                enc_args(args) + (l3 + (enc_bool(new_instance) + seq!['}'])),
            );
            lemma_enc_at_split(
                s,
                i + l1.len() + enc_str(app_id).len() + l2.len(),
                enc_args(args),
                l3 + (enc_bool(new_instance) + seq!['}']),
            );
            lemma_enc_at_split(
                s,
                i + l1.len() + enc_str(app_id).len() + l2.len() + enc_args(args).len(),
                l3,
                enc_bool(new_instance) + seq!['}'],
            );
            lemma_enc_at_split(
                s,
                i + l1.len() + enc_str(app_id).len() + l2.len() + enc_args(args).len() + l3.len(),
                enc_bool(new_instance),
                seq!['}'],
            );
        },
        ActionV::Open { uri } => {
            let l1 = "{\"type\":\"open\",\"uri\":"@;
            assert(enc_action(v) =~= l1 + (enc_str(uri) + seq!['}']));
            lemma_enc_at_split(s, i, l1, enc_str(uri) + seq!['}']);
            lemma_enc_at_split(s, i + l1.len(), enc_str(uri), seq!['}']);
        },
        ActionV::Clipboard { text } => {
            let l1 = "{\"type\":\"clipboard\",\"text\":"@;
            assert(enc_action(v) =~= l1 + (enc_str(text) + seq!['}']));
            lemma_enc_at_split(s, i, l1, enc_str(text) + seq!['}']);
            lemma_enc_at_split(s, i + l1.len(), enc_str(text), seq!['}']);
        },
        ActionV::Callback { key, params } => {
            let l1 = "{\"type\":\"callback\",\"key\":"@;
            let l2 = ",\"params\":"@;
            assert(enc_action(v) =~= l1 + (enc_str(key) + (l2 + (enc_params(params) + seq![
                '}',
            ]))));
            lemma_enc_at_split(s, i, l1, enc_str(key) + (l2 + (enc_params(params) + seq!['}'])));
            lemma_enc_at_split(s, i + l1.len(), enc_str(key), l2 + (enc_params(params) + seq![
                '}',
            ]));
            lemma_enc_at_split(
                s,
                i + l1.len() + enc_str(key).len(),
                l2,
                enc_params(params) + seq!['}'],
            );
            lemma_enc_at_split(
                s,
                i + l1.len() + enc_str(key).len() + l2.len(),
                enc_params(params),
                seq!['}'],
            );
        },
    }
}

fn parse_action_exec(s: &Vec<char>, i: usize, j1: usize) -> (r: Option<(Action, usize)>)
    requires
        i <= j1 <= s@.len(),
        enc_at(s@, i as int, "{\"type\":\"exec\",\"command\":"@),
        j1 as int == i + "{\"type\":\"exec\",\"command\":"@.len(),
    ensures
        r matches Some(p) ==> enc_at(s@, i as int, enc_action(p.0@)) && p.1 as int == i
            + enc_action(p.0@).len() && p.1 <= s@.len(),
        forall|v: ActionV|
            v is Exec && enc_at(s@, i as int, #[trigger] enc_action(v)) ==> (r matches Some(p)
                && p.0@ == v && p.1 as int == i + enc_action(v).len()),
{
    let slen: usize = s.len();
    proof {
        assert forall|v: ActionV|
            v is Exec && enc_at(s@, i as int, #[trigger] enc_action(v)) implies enc_at(
            s@,
            j1 as int,
            enc_str(v->Exec_command),
        ) by {
            lemma_action_parts(s@, i as int, v);
        }
    }
    let command = match parse_string(s, j1) {
        Some(p) => p,
        None => {
            proof {
                assert forall|v: ActionV|
                    !(v is Exec && enc_at(s@, i as int, #[trigger] enc_action(v))) by {}
            }
            return None;
        },
    };
    let j2: usize = command.1;
    let j3 = match skip_lit(s, j2, ",\"args\":") {
        Some(j) => j,
        None => {
            proof {
                assert forall|v: ActionV|
                    !(v is Exec && enc_at(s@, i as int, #[trigger] enc_action(v))) by {
                    if v is Exec && enc_at(s@, i as int, enc_action(v)) {
                        lemma_action_parts(s@, i as int, v);
                        assert(command.0@ == v->Exec_command);
                    }
                }
            }
            return None;
        },
    };
    let args = match parse_str_list(s, j3) {
        Some(p) => p,
        None => {
            proof {
                assert forall|v: ActionV|
                    !(v is Exec && enc_at(s@, i as int, #[trigger] enc_action(v))) by {
                    if v is Exec && enc_at(s@, i as int, enc_action(v)) {
                        lemma_action_parts(s@, i as int, v);
                        assert(command.0@ == v->Exec_command);
                    }
                }
            }
            return None;
        },
    };
    let j4: usize = args.1;
    if j4 >= slen || s[j4] != '}' {
        proof {
            assert forall|v: ActionV| !(v is Exec && enc_at(s@, i as int, #[trigger] enc_action(v))) by {
                if v is Exec && enc_at(s@, i as int, enc_action(v)) {
                    lemma_action_parts(s@, i as int, v);
                    assert(command.0@ == v->Exec_command);
                    assert(args.0.deep_view() == v->Exec_args);
                    lemma_lit_char(
                        s@,
                        i + "{\"type\":\"exec\",\"command\":"@.len() + enc_str(
                            v->Exec_command,
                        ).len() + ",\"args\":"@.len() + enc_args(v->Exec_args).len(),
                        seq!['}'],
                        0,
                    );
                }
            }
        }
        return None;
    }
    let out = Action::Exec { command: command.0, args: args.0 };
    proof {
        assert(s@.subrange(j4 as int, j4 + 1) =~= seq!['}']);
        lemma_enc_at_join(s@, j3 as int, enc_args(out@->Exec_args), seq!['}']);
        lemma_enc_at_join(
            s@,
            j2 as int,
            ",\"args\":"@,
            enc_args(out@->Exec_args) + seq!['}'],
        );
        lemma_enc_at_join(
            s@,
            j1 as int,
            enc_str(out@->Exec_command),
            ",\"args\":"@ + (enc_args(out@->Exec_args) + seq!['}']),
        );
        lemma_enc_at_join(
            s@,
            i as int,
            "{\"type\":\"exec\",\"command\":"@,
            enc_str(out@->Exec_command) + (",\"args\":"@ + (enc_args(out@->Exec_args) + seq![
                '}',
            ])),
        );
        assert("{\"type\":\"exec\",\"command\":"@ + (enc_str(out@->Exec_command) + (
        ",\"args\":"@ + (enc_args(out@->Exec_args) + seq!['}']))) =~= enc_action(out@));
        assert forall|v: ActionV|
            v is Exec && enc_at(s@, i as int, #[trigger] enc_action(v)) implies out@ == v && j4 + 1 == i
            + enc_action(v).len() by {
            lemma_action_parts(s@, i as int, v);
            assert(command.0@ == v->Exec_command);
            assert(args.0.deep_view() == v->Exec_args);
        }
    }
    return Some((out, j4 + 1));
}

#[verifier::rlimit(100)]
fn parse_action_launch(s: &Vec<char>, i: usize, j1: usize) -> (r: Option<(Action, usize)>)
    requires
        i <= j1 <= s@.len(),
        enc_at(s@, i as int, "{\"type\":\"launch\",\"app_id\":"@),
        j1 as int == i + "{\"type\":\"launch\",\"app_id\":"@.len(),
    ensures
        r matches Some(p) ==> enc_at(s@, i as int, enc_action(p.0@)) && p.1 as int == i
            + enc_action(p.0@).len() && p.1 <= s@.len(),
        forall|v: ActionV|
            v is Launch && enc_at(s@, i as int, #[trigger] enc_action(v)) ==> (r matches Some(p)
                && p.0@ == v && p.1 as int == i + enc_action(v).len()),
{
    let slen: usize = s.len();
    proof {
        assert forall|v: ActionV|
            v is Launch && enc_at(s@, i as int, #[trigger] enc_action(v)) implies enc_at(
            s@,
            j1 as int,
            enc_str(v->Launch_app_id),
        ) by {
            lemma_action_parts(s@, i as int, v);
        }
    }
    let app_id = match parse_string(s, j1) {
        Some(p) => p,
        None => {
            proof {
                assert forall|v: ActionV|
                    !(v is Launch && enc_at(s@, i as int, #[trigger] enc_action(v))) by {}
            }
            return None;
        },
    };
    let j2: usize = app_id.1;
    let j3 = match skip_lit(s, j2, ",\"args\":") {
        Some(j) => j,
        None => {
            proof {
                assert forall|v: ActionV|
                    !(v is Launch && enc_at(s@, i as int, #[trigger] enc_action(v))) by {
                    if v is Launch && enc_at(s@, i as int, enc_action(v)) {
                        lemma_action_parts(s@, i as int, v);
                        assert(app_id.0@ == v->Launch_app_id);
                    }
                }
            }
            return None;
        },
    };
    let args = match parse_str_list(s, j3) {
        Some(p) => p,
        None => {
            proof {
                assert forall|v: ActionV|
                    !(v is Launch && enc_at(s@, i as int, #[trigger] enc_action(v))) by {
                    if v is Launch && enc_at(s@, i as int, enc_action(v)) {
                        lemma_action_parts(s@, i as int, v);
                        assert(app_id.0@ == v->Launch_app_id);
                    }
                }
            }
            return None;
        },
    };
    let j4: usize = args.1;
    let j5 = match skip_lit(s, j4, ",\"new_instance\":") {
        Some(j) => j,
        None => {
            proof {
                assert forall|v: ActionV|
                    !(v is Launch && enc_at(s@, i as int, #[trigger] enc_action(v))) by {
                    if v is Launch && enc_at(s@, i as int, enc_action(v)) {
                        lemma_action_parts(s@, i as int, v);
                        assert(app_id.0@ == v->Launch_app_id);
                        assert(args.0.deep_view() == v->Launch_args);
                    }
                }
            }
            return None;
        },
    };
    let ni = match parse_bool(s, j5) {
        Some(p) => p,
        None => {
            proof {
                assert forall|v: ActionV|
                    !(v is Launch && enc_at(s@, i as int, #[trigger] enc_action(v))) by {
                    if v is Launch && enc_at(s@, i as int, enc_action(v)) {
                        lemma_action_parts(s@, i as int, v);
                        assert(app_id.0@ == v->Launch_app_id);
                        assert(args.0.deep_view() == v->Launch_args);
                    }
                }
            }
            return None;
        },
    };
    let j6: usize = ni.1;
    if j6 >= slen || s[j6] != '}' {
        proof {
            assert forall|v: ActionV| !(v is Launch && enc_at(s@, i as int, #[trigger] enc_action(v))) by {
                if v is Launch && enc_at(s@, i as int, enc_action(v)) {
                    lemma_action_parts(s@, i as int, v);
                    assert(app_id.0@ == v->Launch_app_id);
                    assert(args.0.deep_view() == v->Launch_args);
                    assert(ni.0 == v->Launch_new_instance);
                    lemma_lit_char(
                        s@,
                        i + "{\"type\":\"launch\",\"app_id\":"@.len() + enc_str(
                            v->Launch_app_id,
                        ).len() + ",\"args\":"@.len() + enc_args(v->Launch_args).len()
                            + ",\"new_instance\":"@.len() + enc_bool(
                            v->Launch_new_instance,
                        ).len(),
                        seq!['}'],
                        0,
                    );
                }
            }
        }
        return None;
    }
    let out = Action::Launch { app_id: app_id.0, args: args.0, new_instance: ni.0 };
    proof {
        assert(s@.subrange(j6 as int, j6 + 1) =~= seq!['}']);
        lemma_enc_at_join(s@, j5 as int, enc_bool(ni.0), seq!['}']);
        lemma_enc_at_join(
            s@,
            j4 as int,
            ",\"new_instance\":"@,
            enc_bool(ni.0) + seq!['}'],
        );
        lemma_enc_at_join(
            s@,
            j3 as int,
            enc_args(out@->Launch_args),
            ",\"new_instance\":"@ + (enc_bool(ni.0) + seq!['}']),
        );
        lemma_enc_at_join(
            s@,
            j2 as int,
            ",\"args\":"@,
            enc_args(out@->Launch_args) + (",\"new_instance\":"@ + (enc_bool(ni.0) + seq![
                '}',
            ])),
        );
        lemma_enc_at_join(
            s@,
            j1 as int,
            enc_str(out@->Launch_app_id),
            ",\"args\":"@ + (enc_args(out@->Launch_args) + (",\"new_instance\":"@ + (enc_bool(
                ni.0,
            ) + seq!['}']))),
        );
        lemma_enc_at_join(
            s@,
            i as int,
            "{\"type\":\"launch\",\"app_id\":"@,
            enc_str(out@->Launch_app_id) + (",\"args\":"@ + (enc_args(out@->Launch_args) + (
            ",\"new_instance\":"@ + (enc_bool(ni.0) + seq!['}'])))),
        );
        assert("{\"type\":\"launch\",\"app_id\":"@ + (enc_str(out@->Launch_app_id) + (
        ",\"args\":"@ + (enc_args(out@->Launch_args) + (",\"new_instance\":"@ + (enc_bool(
            ni.0,
        ) + seq!['}']))))) =~= enc_action(out@));
        assert forall|v: ActionV|
            v is Launch && enc_at(s@, i as int, #[trigger] enc_action(v)) implies out@ == v && j6 + 1 == i
            + enc_action(v).len() by {
            lemma_action_parts(s@, i as int, v);
            assert(app_id.0@ == v->Launch_app_id);
            assert(args.0.deep_view() == v->Launch_args);
            assert(ni.0 == v->Launch_new_instance);
        }
    }
    return Some((out, j6 + 1));
}

fn parse_action_open(s: &Vec<char>, i: usize, j1: usize) -> (r: Option<(Action, usize)>)
    requires
        i <= j1 <= s@.len(),
        enc_at(s@, i as int, "{\"type\":\"open\",\"uri\":"@),
        j1 as int == i + "{\"type\":\"open\",\"uri\":"@.len(),
    ensures
        r matches Some(p) ==> enc_at(s@, i as int, enc_action(p.0@)) && p.1 as int == i
            + enc_action(p.0@).len() && p.1 <= s@.len(),
        forall|v: ActionV|
            v is Open && enc_at(s@, i as int, #[trigger] enc_action(v)) ==> (r matches Some(p)
                && p.0@ == v && p.1 as int == i + enc_action(v).len()),
{
    let slen: usize = s.len();
    proof {
        assert forall|v: ActionV|
            v is Open && enc_at(s@, i as int, #[trigger] enc_action(v)) implies enc_at(
            s@,
            j1 as int,
            enc_str(v->Open_uri),
        ) by {
            lemma_action_parts(s@, i as int, v);
        }
    }
    let uri = match parse_string(s, j1) {
        Some(p) => p,
        None => {
            proof {
                assert forall|v: ActionV|
                    !(v is Open && enc_at(s@, i as int, #[trigger] enc_action(v))) by {}
            }
            return None;
        },
    };
    let j2: usize = uri.1;
    if j2 >= slen || s[j2] != '}' {
        proof {
            assert forall|v: ActionV| !(v is Open && enc_at(s@, i as int, #[trigger] enc_action(v))) by {
                if v is Open && enc_at(s@, i as int, enc_action(v)) {
                    lemma_action_parts(s@, i as int, v);
                    assert(uri.0@ == v->Open_uri);
                    lemma_lit_char(
                        s@,
                        i + "{\"type\":\"open\",\"uri\":"@.len() + enc_str(v->Open_uri).len(),
                        seq!['}'],
                        0,
                    );
                }
            }
        }
        return None;
    }
    let out = Action::Open { uri: uri.0 };
    proof {
        assert(s@.subrange(j2 as int, j2 + 1) =~= seq!['}']);
        lemma_enc_at_join(s@, j1 as int, enc_str(out@->Open_uri), seq!['}']);
        lemma_enc_at_join(
            s@,
            i as int,
            "{\"type\":\"open\",\"uri\":"@,
            enc_str(out@->Open_uri) + seq!['}'],
        );
        assert("{\"type\":\"open\",\"uri\":"@ + (enc_str(out@->Open_uri) + seq!['}'])
            =~= enc_action(out@));
        assert forall|v: ActionV|
            v is Open && enc_at(s@, i as int, #[trigger] enc_action(v)) implies out@ == v && j2 + 1 == i
            + enc_action(v).len() by {
            lemma_action_parts(s@, i as int, v);
            assert(uri.0@ == v->Open_uri);
        }
    }
    return Some((out, j2 + 1));
}

fn parse_action_clipboard(s: &Vec<char>, i: usize, j1: usize) -> (r: Option<(Action, usize)>)
    requires
        i <= j1 <= s@.len(),
        enc_at(s@, i as int, "{\"type\":\"clipboard\",\"text\":"@),
        j1 as int == i + "{\"type\":\"clipboard\",\"text\":"@.len(),
    ensures
        r matches Some(p) ==> enc_at(s@, i as int, enc_action(p.0@)) && p.1 as int == i
            + enc_action(p.0@).len() && p.1 <= s@.len(),
        forall|v: ActionV|
            v is Clipboard && enc_at(s@, i as int, #[trigger] enc_action(v)) ==> (r matches Some(p)
                && p.0@ == v && p.1 as int == i + enc_action(v).len()),
{
    let slen: usize = s.len();
    proof {
        assert forall|v: ActionV|
            v is Clipboard && enc_at(s@, i as int, #[trigger] enc_action(v)) implies enc_at(
            s@,
            j1 as int,
            enc_str(v->Clipboard_text),
        ) by {
            lemma_action_parts(s@, i as int, v);
        }
    }
    let text = match parse_string(s, j1) {
        Some(p) => p,
        None => {
            proof {
                assert forall|v: ActionV|
                    !(v is Clipboard && enc_at(s@, i as int, #[trigger] enc_action(v))) by {}
            }
            return None;
        },
    };
    let j2: usize = text.1;
    if j2 >= slen || s[j2] != '}' {
        proof {
            assert forall|v: ActionV| !(v is Clipboard && enc_at(s@, i as int, #[trigger] enc_action(v))) by {
                if v is Clipboard && enc_at(s@, i as int, enc_action(v)) {
                    lemma_action_parts(s@, i as int, v);
                    assert(text.0@ == v->Clipboard_text);
                    lemma_lit_char(
                        s@,
                        i + "{\"type\":\"clipboard\",\"text\":"@.len() + enc_str(
                            v->Clipboard_text,
                        ).len(),
                        seq!['}'],
                        0,
                    );
                }
            }
        }
        return None;
    }
    let out = Action::Clipboard { text: text.0 };
    proof {
        assert(s@.subrange(j2 as int, j2 + 1) =~= seq!['}']);
        lemma_enc_at_join(s@, j1 as int, enc_str(out@->Clipboard_text), seq!['}']);
        lemma_enc_at_join(
            s@,
            i as int,
            "{\"type\":\"clipboard\",\"text\":"@,
            enc_str(out@->Clipboard_text) + seq!['}'],
        );
        assert("{\"type\":\"clipboard\",\"text\":"@ + (enc_str(out@->Clipboard_text) + seq![
            '}',
        ]) =~= enc_action(out@));
        assert forall|v: ActionV|
            v is Clipboard && enc_at(s@, i as int, #[trigger] enc_action(v)) implies out@ == v && j2 + 1 == i
            + enc_action(v).len() by {
            lemma_action_parts(s@, i as int, v);
            assert(text.0@ == v->Clipboard_text);
        }
    }
    return Some((out, j2 + 1));
}

fn parse_action_callback(s: &Vec<char>, i: usize, j1: usize) -> (r: Option<(Action, usize)>)
    requires
        i <= j1 <= s@.len(),
        enc_at(s@, i as int, "{\"type\":\"callback\",\"key\":"@),
        j1 as int == i + "{\"type\":\"callback\",\"key\":"@.len(),
    ensures
        r matches Some(p) ==> enc_at(s@, i as int, enc_action(p.0@)) && p.1 as int == i
            + enc_action(p.0@).len() && p.1 <= s@.len(),
        forall|v: ActionV|
            v is Callback && enc_at(s@, i as int, #[trigger] enc_action(v)) ==> (r matches Some(p)
                && p.0@ == v && p.1 as int == i + enc_action(v).len()),
{
    let slen: usize = s.len();
    proof {
        assert forall|v: ActionV|
            v is Callback && enc_at(s@, i as int, #[trigger] enc_action(v)) implies enc_at(
            s@,
            j1 as int,
            enc_str(v->Callback_key),
        ) by {
            lemma_action_parts(s@, i as int, v);
        }
    }
    let key = match parse_string(s, j1) {
        Some(p) => p,
        None => {
            proof {
                assert forall|v: ActionV|
                    !(v is Callback && enc_at(s@, i as int, #[trigger] enc_action(v))) by {}
            }
            return None;
        },
    };
    let j2: usize = key.1;
    let j3 = match skip_lit(s, j2, ",\"params\":") {
        Some(j) => j,
        None => {
            proof {
                assert forall|v: ActionV|
                    !(v is Callback && enc_at(s@, i as int, #[trigger] enc_action(v))) by {
                    if v is Callback && enc_at(s@, i as int, enc_action(v)) {
                        lemma_action_parts(s@, i as int, v);
                        assert(key.0@ == v->Callback_key);
                    }
                }
            }
            return None;
        },
    };
    let params = match parse_params(s, j3) {
        Some(p) => p,
        None => {
            proof {
                assert forall|v: ActionV|
                    !(v is Callback && enc_at(s@, i as int, #[trigger] enc_action(v))) by {
                    if v is Callback && enc_at(s@, i as int, enc_action(v)) {
                        lemma_action_parts(s@, i as int, v);
                        assert(key.0@ == v->Callback_key);
                    }
                }
            }
            return None;
        },
    };
    let j4: usize = params.1;
    if j4 >= slen || s[j4] != '}' {
        proof {
            assert forall|v: ActionV| !(v is Callback && enc_at(s@, i as int, #[trigger] enc_action(v))) by {
                if v is Callback && enc_at(s@, i as int, enc_action(v)) {
                    lemma_action_parts(s@, i as int, v);
                    assert(key.0@ == v->Callback_key);
                    assert(params.0.deep_view() == v->Callback_params);
                    lemma_lit_char(
                        s@,
                        i + "{\"type\":\"callback\",\"key\":"@.len() + enc_str(
                            v->Callback_key,
                        ).len() + ",\"params\":"@.len() + enc_params(
                            v->Callback_params,
                        ).len(),
                        seq!['}'],
                        0,
                    );
                }
            }
        }
        return None;
    }
    let out = Action::Callback { key: key.0, params: params.0 };
    proof {
        assert(s@.subrange(j4 as int, j4 + 1) =~= seq!['}']);
        lemma_enc_at_join(s@, j3 as int, enc_params(out@->Callback_params), seq!['}']);
        lemma_enc_at_join(
            s@,
            j2 as int,
            ",\"params\":"@,
            enc_params(out@->Callback_params) + seq!['}'],
        );
        lemma_enc_at_join(
            s@,
            j1 as int,
            enc_str(out@->Callback_key),
            ",\"params\":"@ + (enc_params(out@->Callback_params) + seq!['}']),
        );
        lemma_enc_at_join(
            s@,
            i as int,
            "{\"type\":\"callback\",\"key\":"@,
            enc_str(out@->Callback_key) + (",\"params\":"@ + (enc_params(
                out@->Callback_params,
            ) + seq!['}'])),
        );
        assert("{\"type\":\"callback\",\"key\":"@ + (enc_str(out@->Callback_key) + (
        ",\"params\":"@ + (enc_params(out@->Callback_params) + seq!['}']))) =~= enc_action(
            out@,
        ));
        assert forall|v: ActionV|
            v is Callback && enc_at(s@, i as int, #[trigger] enc_action(v)) implies out@ == v && j4 + 1 == i
            + enc_action(v).len() by {
            lemma_action_parts(s@, i as int, v);
            assert(key.0@ == v->Callback_key);
            assert(params.0.deep_view() == v->Callback_params);
        }
    }
    return Some((out, j4 + 1));
}

/// Reads one action object. Succeeds on, and only on, exactly the
/// fragments that [`enc_action`] produces.
fn parse_action(s: &Vec<char>, i: usize) -> (r: Option<(Action, usize)>)
    requires
        i <= s@.len(),
    ensures
        r matches Some(p) ==> enc_at(s@, i as int, enc_action(p.0@)) && p.1 as int == i
            + enc_action(p.0@).len() && p.1 <= s@.len(),
        forall|v: ActionV|
            enc_at(s@, i as int, #[trigger] enc_action(v)) ==> (r matches Some(p) && p.0@ == v
                && p.1 as int == i + enc_action(v).len()),
{
    proof {
        reveal_strlit("{\"type\":\"exec\",\"command\":");
        reveal_strlit("{\"type\":\"launch\",\"app_id\":");
        reveal_strlit("{\"type\":\"open\",\"uri\":");
        reveal_strlit("{\"type\":\"clipboard\",\"text\":");
        reveal_strlit("{\"type\":\"callback\",\"key\":");
    }
    if let Some(j1) = skip_lit(s, i, "{\"type\":\"exec\",\"command\":") {
        proof {
            assert forall|v: ActionV|
                enc_at(s@, i as int, #[trigger] enc_action(v)) implies v is Exec by {
                lemma_action_parts(s@, i as int, v);
                match v {
                    ActionV::Exec { .. } => {},
                    ActionV::Launch { .. } => {
                        lemma_lit_char(s@, i as int, "{\"type\":\"exec\",\"command\":"@, 9);
                        lemma_lit_char(s@, i as int, "{\"type\":\"launch\",\"app_id\":"@, 9);
                    },
                    ActionV::Open { .. } => {
                        lemma_lit_char(s@, i as int, "{\"type\":\"exec\",\"command\":"@, 9);
                        lemma_lit_char(s@, i as int, "{\"type\":\"open\",\"uri\":"@, 9);
                    },
                    ActionV::Clipboard { .. } => {
                        lemma_lit_char(s@, i as int, "{\"type\":\"exec\",\"command\":"@, 9);
                        lemma_lit_char(s@, i as int, "{\"type\":\"clipboard\",\"text\":"@, 9);
                    },
                    ActionV::Callback { .. } => {
                        lemma_lit_char(s@, i as int, "{\"type\":\"exec\",\"command\":"@, 9);
                        lemma_lit_char(s@, i as int, "{\"type\":\"callback\",\"key\":"@, 9);
                    },
                }
            }
        }
        return parse_action_exec(s, i, j1);
    }
    if let Some(j1) = skip_lit(s, i, "{\"type\":\"launch\",\"app_id\":") {
        proof {
            assert forall|v: ActionV|
                enc_at(s@, i as int, #[trigger] enc_action(v)) implies v is Launch by {
                lemma_action_parts(s@, i as int, v);
                match v {
                    ActionV::Launch { .. } => {},
                    ActionV::Exec { .. } => {},
                    ActionV::Open { .. } => {
                        lemma_lit_char(s@, i as int, "{\"type\":\"launch\",\"app_id\":"@, 9);
                        lemma_lit_char(s@, i as int, "{\"type\":\"open\",\"uri\":"@, 9);
                    },
                    ActionV::Clipboard { .. } => {
                        lemma_lit_char(s@, i as int, "{\"type\":\"launch\",\"app_id\":"@, 9);
                        lemma_lit_char(s@, i as int, "{\"type\":\"clipboard\",\"text\":"@, 9);
                    },
                    ActionV::Callback { .. } => {
                        lemma_lit_char(s@, i as int, "{\"type\":\"launch\",\"app_id\":"@, 9);
                        lemma_lit_char(s@, i as int, "{\"type\":\"callback\",\"key\":"@, 9);
                    },
                }
            }
        }
        return parse_action_launch(s, i, j1);
    }
    if let Some(j1) = skip_lit(s, i, "{\"type\":\"open\",\"uri\":") {
        proof {
            assert forall|v: ActionV|
                enc_at(s@, i as int, #[trigger] enc_action(v)) implies v is Open by {
                lemma_action_parts(s@, i as int, v);
                match v {
                    ActionV::Open { .. } => {},
                    ActionV::Exec { .. } => {},
                    ActionV::Launch { .. } => {},
                    ActionV::Clipboard { .. } => {
                        lemma_lit_char(s@, i as int, "{\"type\":\"open\",\"uri\":"@, 9);
                        lemma_lit_char(s@, i as int, "{\"type\":\"clipboard\",\"text\":"@, 9);
                    },
                    ActionV::Callback { .. } => {
                        lemma_lit_char(s@, i as int, "{\"type\":\"open\",\"uri\":"@, 9);
                        lemma_lit_char(s@, i as int, "{\"type\":\"callback\",\"key\":"@, 9);
                    },
                }
            }
        }
        return parse_action_open(s, i, j1);
    }
    if let Some(j1) = skip_lit(s, i, "{\"type\":\"clipboard\",\"text\":") {
        proof {
            assert forall|v: ActionV|
                enc_at(s@, i as int, #[trigger] enc_action(v)) implies v is Clipboard by {
                lemma_action_parts(s@, i as int, v);
                match v {
                    ActionV::Clipboard { .. } => {},
                    ActionV::Exec { .. } => {},
                    ActionV::Launch { .. } => {},
                    ActionV::Open { .. } => {},
                    ActionV::Callback { .. } => {
                        lemma_lit_char(s@, i as int, "{\"type\":\"clipboard\",\"text\":"@, 10);
                        lemma_lit_char(s@, i as int, "{\"type\":\"callback\",\"key\":"@, 10);
                    },
                }
            }
        }
        return parse_action_clipboard(s, i, j1);
    }
    if let Some(j1) = skip_lit(s, i, "{\"type\":\"callback\",\"key\":") {
        proof {
            assert forall|v: ActionV|
                enc_at(s@, i as int, #[trigger] enc_action(v)) implies v is Callback by {
                lemma_action_parts(s@, i as int, v);
                match v {
                    ActionV::Callback { .. } => {},
                    ActionV::Exec { .. } => {},
                    ActionV::Launch { .. } => {},
                    ActionV::Open { .. } => {},
                    ActionV::Clipboard { .. } => {},
                }
            }
        }
        return parse_action_callback(s, i, j1);
    }
    proof {
        assert forall|v: ActionV| !enc_at(s@, i as int, #[trigger] enc_action(v)) by {
            if enc_at(s@, i as int, enc_action(v)) {
                lemma_action_parts(s@, i as int, v);
            }
        }
    }
    None
}


/// The first half of a metadata object: id and name, up to and with the
/// `"version":` key.
pub open spec fn enc_md_a(idv: Seq<char>, namev: Seq<char>) -> Seq<char> {
    enc_str(idv) + ",\"name\":"@ + enc_str(namev) + ",\"version\":"@
}

/// The second half of a metadata object: version, description and author.
pub open spec fn enc_md_b(ver: Seq<char>, desc: Seq<char>, auth: Seq<char>) -> Seq<char> {
    enc_str(ver) + ",\"description\":"@ + enc_str(desc) + ",\"author\":"@ + enc_str(auth)
}

proof fn lemma_metadata_halves(md: MetadataV)
    ensures
        enc_metadata_fields(md) == enc_md_a(md.id, md.name) + enc_md_b(
            md.version,
            md.description,
            md.author,
        ),
{
    assert(enc_metadata_fields(md) =~= enc_md_a(md.id, md.name) + enc_md_b(
        md.version,
        md.description,
        md.author,
    ));
}

proof fn lemma_md_a_parts(s: Seq<char>, i: int, idv: Seq<char>, namev: Seq<char>)
    requires
        enc_at(s, i, enc_md_a(idv, namev)),
    ensures
        enc_at(s, i, enc_str(idv)),
        enc_at(s, i + enc_str(idv).len(), ",\"name\":"@),
        enc_at(s, i + enc_str(idv).len() + ",\"name\":"@.len(), enc_str(namev)),
        enc_at(
            s,
            i + enc_str(idv).len() + ",\"name\":"@.len() + enc_str(namev).len(),
            ",\"version\":"@,
        ),
        i + enc_md_a(idv, namev).len() == i + enc_str(idv).len() + ",\"name\":"@.len() + enc_str(
            namev,
        ).len() + ",\"version\":"@.len(),
{
    let l2 = ",\"name\":"@;
    let l3 = ",\"version\":"@;
    assert(enc_md_a(idv, namev) =~= enc_str(idv) + (l2 + (enc_str(namev) + l3)));
    lemma_enc_at_split(s, i, enc_str(idv), l2 + (enc_str(namev) + l3));
    lemma_enc_at_split(s, i + enc_str(idv).len(), l2, enc_str(namev) + l3);
    lemma_enc_at_split(s, i + enc_str(idv).len() + l2.len(), enc_str(namev), l3);
}

proof fn lemma_md_b_parts(s: Seq<char>, i: int, ver: Seq<char>, desc: Seq<char>, auth: Seq<char>)
    requires
        enc_at(s, i, enc_md_b(ver, desc, auth)),
    ensures
        enc_at(s, i, enc_str(ver)),
        enc_at(s, i + enc_str(ver).len(), ",\"description\":"@),
        enc_at(s, i + enc_str(ver).len() + ",\"description\":"@.len(), enc_str(desc)),
        enc_at(
            s,
            i + enc_str(ver).len() + ",\"description\":"@.len() + enc_str(desc).len(),
            ",\"author\":"@,
        ),
        enc_at(
            s,
            i + enc_str(ver).len() + ",\"description\":"@.len() + enc_str(desc).len()
                + ",\"author\":"@.len(),
            enc_str(auth),
        ),
        i + enc_md_b(ver, desc, auth).len() == i + enc_str(ver).len() + ",\"description\":"@.len()
            + enc_str(desc).len() + ",\"author\":"@.len() + enc_str(auth).len(),
{
    let l4 = ",\"description\":"@;
    let l5 = ",\"author\":"@;
    assert(enc_md_b(ver, desc, auth) =~= enc_str(ver) + (l4 + (enc_str(desc) + (l5 + enc_str(
        auth,
    )))));
    lemma_enc_at_split(s, i, enc_str(ver), l4 + (enc_str(desc) + (l5 + enc_str(auth))));
    lemma_enc_at_split(s, i + enc_str(ver).len(), l4, enc_str(desc) + (l5 + enc_str(auth)));
    lemma_enc_at_split(
        s,
        i + enc_str(ver).len() + l4.len(),
        enc_str(desc),
        l5 + enc_str(auth),
    );
    lemma_enc_at_split(
        s,
        i + enc_str(ver).len() + l4.len() + enc_str(desc).len(),
        l5,
        enc_str(auth),
    );
}

/// Reads the id and name of a metadata object, up to the `version` value.
fn parse_md_a(s: &Vec<char>, i: usize) -> (r: Option<(String, String, usize)>)
    requires
        i <= s@.len(),
    ensures
        r matches Some(p) ==> enc_at(s@, i as int, enc_md_a(p.0@, p.1@)) && p.2 as int == i
            + enc_md_a(p.0@, p.1@).len() && p.2 <= s@.len(),
        forall|idv: Seq<char>, namev: Seq<char>|
            enc_at(s@, i as int, #[trigger] enc_md_a(idv, namev)) ==> (r matches Some(p) && p.0@
                == idv && p.1@ == namev && p.2 as int == i + enc_md_a(idv, namev).len()),
{
    proof {
        reveal_strlit(",\"name\":");
        reveal_strlit(",\"version\":");
        assert forall|idv: Seq<char>, namev: Seq<char>|
            enc_at(s@, i as int, #[trigger] enc_md_a(idv, namev)) implies enc_at(
            s@,
            i as int,
            enc_str(idv),
        ) by {
            lemma_md_a_parts(s@, i as int, idv, namev);
        }
    }
    let f_id = match parse_string(s, i) {
        Some(p) => p,
        None => {
            proof {
                assert forall|idv: Seq<char>, namev: Seq<char>|
                    !enc_at(s@, i as int, #[trigger] enc_md_a(idv, namev)) by {}
            }
            return None;
        },
    };
    let j2 = match skip_lit(s, f_id.1, ",\"name\":") {
        Some(j) => j,
        None => {
            proof {
                assert forall|idv: Seq<char>, namev: Seq<char>|
                    !enc_at(s@, i as int, #[trigger] enc_md_a(idv, namev)) by {
                    if enc_at(s@, i as int, enc_md_a(idv, namev)) {
                        lemma_md_a_parts(s@, i as int, idv, namev);
                        assert(f_id.0@ == idv);
                    }
                }
            }
            return None;
        },
    };
    let f_name = match parse_string(s, j2) {
        Some(p) => p,
        None => {
            proof {
                assert forall|idv: Seq<char>, namev: Seq<char>|
                    !enc_at(s@, i as int, #[trigger] enc_md_a(idv, namev)) by {
                    if enc_at(s@, i as int, enc_md_a(idv, namev)) {
                        lemma_md_a_parts(s@, i as int, idv, namev);
                        assert(f_id.0@ == idv);
                    }
                }
            }
            return None;
        },
    };
    let j3 = match skip_lit(s, f_name.1, ",\"version\":") {
        Some(j) => j,
        None => {
            proof {
                assert forall|idv: Seq<char>, namev: Seq<char>|
                    !enc_at(s@, i as int, #[trigger] enc_md_a(idv, namev)) by {
                    if enc_at(s@, i as int, enc_md_a(idv, namev)) {
                        lemma_md_a_parts(s@, i as int, idv, namev);
                        assert(f_id.0@ == idv);
                        assert(f_name.0@ == namev);
                    }
                }
            }
            return None;
        },
    };
    proof {
        lemma_enc_at_join(s@, j2 as int, enc_str(f_name.0@), ",\"version\":"@);
        lemma_enc_at_join(
            s@,
            f_id.1 as int,
            ",\"name\":"@,
            enc_str(f_name.0@) + ",\"version\":"@,
        );
        lemma_enc_at_join(
            s@,
            i as int,
            enc_str(f_id.0@),
            ",\"name\":"@ + (enc_str(f_name.0@) + ",\"version\":"@),
        );
        assert(enc_str(f_id.0@) + (",\"name\":"@ + (enc_str(f_name.0@) + ",\"version\":"@))
            =~= enc_md_a(f_id.0@, f_name.0@));
        assert forall|idv: Seq<char>, namev: Seq<char>|
            enc_at(s@, i as int, #[trigger] enc_md_a(idv, namev)) implies f_id.0@ == idv
            && f_name.0@ == namev && j3 as int == i + enc_md_a(idv, namev).len() by {
            lemma_md_a_parts(s@, i as int, idv, namev);
        }
    }
    Some((f_id.0, f_name.0, j3))
}

/// Reads the version, description and author of a metadata object.
#[verifier::rlimit(100)]
fn parse_md_b(s: &Vec<char>, i: usize) -> (r: Option<(String, String, String, usize)>)
    requires
        i <= s@.len(),
    ensures
        r matches Some(p) ==> enc_at(s@, i as int, enc_md_b(p.0@, p.1@, p.2@)) && p.3 as int == i
            + enc_md_b(p.0@, p.1@, p.2@).len() && p.3 <= s@.len(),
        forall|ver: Seq<char>, desc: Seq<char>, auth: Seq<char>|
            enc_at(s@, i as int, #[trigger] enc_md_b(ver, desc, auth)) ==> (r matches Some(p)
                && p.0@ == ver && p.1@ == desc && p.2@ == auth && p.3 as int == i + enc_md_b(
                ver,
                desc,
                auth,
            ).len()),
{
    proof {
        reveal_strlit(",\"description\":");
        reveal_strlit(",\"author\":");
        assert forall|ver: Seq<char>, desc: Seq<char>, auth: Seq<char>|
            enc_at(s@, i as int, #[trigger] enc_md_b(ver, desc, auth)) implies enc_at(
            s@,
            i as int,
            enc_str(ver),
        ) by {
            lemma_md_b_parts(s@, i as int, ver, desc, auth);
        }
    }
    let f_ver = match parse_string(s, i) {
        Some(p) => p,
        None => {
            proof {
                assert forall|ver: Seq<char>, desc: Seq<char>, auth: Seq<char>|
                    !enc_at(s@, i as int, #[trigger] enc_md_b(ver, desc, auth)) by {}
            }
            return None;
        },
    };
    let j4 = match skip_lit(s, f_ver.1, ",\"description\":") {
        Some(j) => j,
        None => {
            proof {
                assert forall|ver: Seq<char>, desc: Seq<char>, auth: Seq<char>|
                    !enc_at(s@, i as int, #[trigger] enc_md_b(ver, desc, auth)) by {
                    if enc_at(s@, i as int, enc_md_b(ver, desc, auth)) {
                        lemma_md_b_parts(s@, i as int, ver, desc, auth);
                        assert(f_ver.0@ == ver);
                    }
                }
            }
            return None;
        },
    };
    let f_desc = match parse_string(s, j4) {
        Some(p) => p,
        None => {
            proof {
                assert forall|ver: Seq<char>, desc: Seq<char>, auth: Seq<char>|
                    !enc_at(s@, i as int, #[trigger] enc_md_b(ver, desc, auth)) by {
                    if enc_at(s@, i as int, enc_md_b(ver, desc, auth)) {
                        lemma_md_b_parts(s@, i as int, ver, desc, auth);
                        assert(f_ver.0@ == ver);
                    }
                }
            }
            return None;
        },
    };
    let j5 = match skip_lit(s, f_desc.1, ",\"author\":") {
        Some(j) => j,
        None => {
            proof {
                assert forall|ver: Seq<char>, desc: Seq<char>, auth: Seq<char>|
                    !enc_at(s@, i as int, #[trigger] enc_md_b(ver, desc, auth)) by {
                    if enc_at(s@, i as int, enc_md_b(ver, desc, auth)) {
                        lemma_md_b_parts(s@, i as int, ver, desc, auth);
                        assert(f_ver.0@ == ver);
                        assert(f_desc.0@ == desc);
                    }
                }
            }
            return None;
        },
    };
    let f_auth = match parse_string(s, j5) {
        Some(p) => p,
        None => {
            proof {
                assert forall|ver: Seq<char>, desc: Seq<char>, auth: Seq<char>|
                    !enc_at(s@, i as int, #[trigger] enc_md_b(ver, desc, auth)) by {
                    if enc_at(s@, i as int, enc_md_b(ver, desc, auth)) {
                        lemma_md_b_parts(s@, i as int, ver, desc, auth);
                        assert(f_ver.0@ == ver);
                        assert(f_desc.0@ == desc);
                    }
                }
            }
            return None;
        },
    };
    proof {
        lemma_enc_at_join(s@, f_desc.1 as int, ",\"author\":"@, enc_str(f_auth.0@));
        lemma_enc_at_join(
            s@,
            j4 as int,
            enc_str(f_desc.0@),
            ",\"author\":"@ + enc_str(f_auth.0@),
        );
        lemma_enc_at_join(
            s@,
            f_ver.1 as int,
            ",\"description\":"@,
            enc_str(f_desc.0@) + (",\"author\":"@ + enc_str(f_auth.0@)),
        );
        lemma_enc_at_join(
            s@,
            i as int,
            enc_str(f_ver.0@),
            ",\"description\":"@ + (enc_str(f_desc.0@) + (",\"author\":"@ + enc_str(f_auth.0@))),
        );
        assert(enc_str(f_ver.0@) + (",\"description\":"@ + (enc_str(f_desc.0@) + (",\"author\":"@
            + enc_str(f_auth.0@)))) =~= enc_md_b(f_ver.0@, f_desc.0@, f_auth.0@));
        assert forall|ver: Seq<char>, desc: Seq<char>, auth: Seq<char>|
            enc_at(s@, i as int, #[trigger] enc_md_b(ver, desc, auth)) implies f_ver.0@ == ver
            && f_desc.0@ == desc && f_auth.0@ == auth && f_auth.1 as int == i + enc_md_b(
            ver,
            desc,
            auth,
        ).len() by {
            lemma_md_b_parts(s@, i as int, ver, desc, auth);
        }
    }
    Some((f_ver.0, f_desc.0, f_auth.0, f_auth.1))
}

/// Reads the five identity strings of a metadata object.
fn parse_metadata_fields(s: &Vec<char>, i: usize) -> (r: Option<(Metadata, usize)>)
    requires
        i <= s@.len(),
    ensures
        r matches Some(p) ==> enc_at(s@, i as int, enc_metadata_fields(p.0@)) && p.1 as int == i
            + enc_metadata_fields(p.0@).len() && p.1 <= s@.len(),
        forall|md: MetadataV|
            enc_at(s@, i as int, #[trigger] enc_metadata_fields(md)) ==> (r matches Some(p)
                && p.0@ == md && p.1 as int == i + enc_metadata_fields(md).len()),
{
    proof {
        assert forall|md: MetadataV|
            enc_at(s@, i as int, #[trigger] enc_metadata_fields(md)) implies enc_at(
            s@,
            i as int,
            enc_md_a(md.id, md.name),
        ) && enc_at(
            s@,
            i + enc_md_a(md.id, md.name).len(),
            enc_md_b(md.version, md.description, md.author),
        ) by {
            lemma_metadata_halves(md);
            lemma_enc_at_split(
                s@,
                i as int,
                enc_md_a(md.id, md.name),
                enc_md_b(md.version, md.description, md.author),
            );
        }
    }
    let a = match parse_md_a(s, i) {
        Some(p) => p,
        None => {
            proof {
                assert forall|md: MetadataV|
                    !enc_at(s@, i as int, #[trigger] enc_metadata_fields(md)) by {}
            }
            return None;
        },
    };
    let ja: usize = a.2;
    let b = match parse_md_b(s, ja) {
        Some(p) => p,
        None => {
            proof {
                assert forall|md: MetadataV|
                    !enc_at(s@, i as int, #[trigger] enc_metadata_fields(md)) by {}
            }
            return None;
        },
    };
    let out = Metadata { id: a.0, name: a.1, version: b.0, description: b.1, author: b.2 };
    proof {
        lemma_enc_at_join(
            s@,
            i as int,
            enc_md_a(out@.id, out@.name),
            enc_md_b(out@.version, out@.description, out@.author),
        );
        lemma_metadata_halves(out@);
        assert forall|md: MetadataV|
            enc_at(s@, i as int, #[trigger] enc_metadata_fields(md)) implies out@ == md && b.3
            as int == i + enc_metadata_fields(md).len() by {
            lemma_metadata_halves(md);
        }
    }
    Some((out, b.3))
}

/// Where the pieces of an encoded method result sit, by variant.
proof fn lemma_result_parts(s: Seq<char>, i: int, v: MethodResultV)
    requires
        enc_at(s, i, enc_result(v)),
    ensures
        v matches MethodResultV::Authenticate(md) ==> enc_at(
            s,
            i,
            "{\"type\":\"authenticate\",\"id\":"@,
        ) && enc_at(s, i + "{\"type\":\"authenticate\",\"id\":"@.len(), enc_metadata_fields(md))
            && enc_at(
            s,
            i + "{\"type\":\"authenticate\",\"id\":"@.len() + enc_metadata_fields(md).len(),
            seq!['}'],
        ) && i + enc_result(v).len() == i + "{\"type\":\"authenticate\",\"id\":"@.len()
            + enc_metadata_fields(md).len() + 1,
        v matches MethodResultV::Matches(items) ==> enc_at(
            s,
            i,
            "{\"type\":\"matches\",\"items\":"@,
        ) && enc_at(s, i + "{\"type\":\"matches\",\"items\":"@.len(), enc_matches(items))
            && enc_at(
            s,
            i + "{\"type\":\"matches\",\"items\":"@.len() + enc_matches(items).len(),
            seq!['}'],
        ) && i + enc_result(v).len() == i + "{\"type\":\"matches\",\"items\":"@.len()
            + enc_matches(items).len() + 1,
        v matches MethodResultV::Error(e) ==> enc_at(s, i, "{\"type\":\"error\",\"message\":"@)
            && enc_at(s, i + "{\"type\":\"error\",\"message\":"@.len(), enc_str(e)) && enc_at(
            s,
            i + "{\"type\":\"error\",\"message\":"@.len() + enc_str(e).len(),
            seq!['}'],
        ) && i + enc_result(v).len() == i + "{\"type\":\"error\",\"message\":"@.len() + enc_str(
            e,
        ).len() + 1,
        v is NoResult ==> enc_at(s, i, "{\"type\":\"none\"}"@) && i + enc_result(v).len() == i
            + "{\"type\":\"none\"}"@.len(),
{
    match v {
        MethodResultV::Authenticate(md) => {
            let l1 = "{\"type\":\"authenticate\",\"id\":"@;
            assert(enc_result(v) =~= l1 + (enc_metadata_fields(md) + seq!['}']));
            lemma_enc_at_split(s, i, l1, enc_metadata_fields(md) + seq!['}']);
            lemma_enc_at_split(s, i + l1.len(), enc_metadata_fields(md), seq!['}']);
        },
        MethodResultV::Matches(items) => {
            let l1 = "{\"type\":\"matches\",\"items\":"@;
            assert(enc_result(v) =~= l1 + (enc_matches(items) + seq!['}']));
            lemma_enc_at_split(s, i, l1, enc_matches(items) + seq!['}']);
            lemma_enc_at_split(s, i + l1.len(), enc_matches(items), seq!['}']);
        },
        MethodResultV::Error(e) => {
            let l1 = "{\"type\":\"error\",\"message\":"@;
            assert(enc_result(v) =~= l1 + (enc_str(e) + seq!['}']));
            lemma_enc_at_split(s, i, l1, enc_str(e) + seq!['}']);
            lemma_enc_at_split(s, i + l1.len(), enc_str(e), seq!['}']);
        },
        MethodResultV::NoResult => {},
    }
}

/// Reads an authentication result, after its opening literal.
#[verifier::rlimit(100)]
fn parse_result_auth(s: &Vec<char>, i: usize, j1: usize) -> (r: Option<(MethodResult, usize)>)
    requires
        i <= j1 <= s@.len(),
        enc_at(s@, i as int, "{\"type\":\"authenticate\",\"id\":"@),
        j1 as int == i + "{\"type\":\"authenticate\",\"id\":"@.len(),
    ensures
        r matches Some(p) ==> enc_at(s@, i as int, enc_result(p.0@)) && p.1 as int == i
            + enc_result(p.0@).len() && p.1 <= s@.len(),
        forall|v: MethodResultV|
            v is Authenticate && enc_at(s@, i as int, #[trigger] enc_result(v)) ==> (
            r matches Some(p) && p.0@ == v && p.1 as int == i + enc_result(v).len()),
{
    let slen: usize = s.len();
    proof {
        assert forall|v: MethodResultV|
            v is Authenticate && enc_at(s@, i as int, #[trigger] enc_result(v)) implies enc_at(
            s@,
            j1 as int,
            enc_metadata_fields(v->Authenticate_0),
        ) by {
            lemma_result_parts(s@, i as int, v);
        }
    }
    let md = match parse_metadata_fields(s, j1) {
        Some(p) => p,
        None => {
            proof {
                assert forall|v: MethodResultV|
                    !(v is Authenticate && enc_at(s@, i as int, #[trigger] enc_result(v))) by {}
            }
            return None;
        },
    };
    let j6: usize = md.1;
    if j6 >= slen || s[j6] != '}' {
        proof {
            assert forall|v: MethodResultV|
                !(v is Authenticate && enc_at(s@, i as int, #[trigger] enc_result(v))) by {
                if v is Authenticate && enc_at(s@, i as int, enc_result(v)) {
                    lemma_result_parts(s@, i as int, v);
                    assert(md.0@ == v->Authenticate_0);
                    lemma_lit_char(
                        s@,
                        i + "{\"type\":\"authenticate\",\"id\":"@.len() + enc_metadata_fields(
                            v->Authenticate_0,
                        ).len(),
                        seq!['}'],
                        0,
                    );
                }
            }
        }
        return None;
    }
    let out = MethodResult::Authenticate(md.0);
    proof {
        assert(s@.subrange(j6 as int, j6 + 1) =~= seq!['}']);
        lemma_enc_at_join(s@, j1 as int, enc_metadata_fields(out@->Authenticate_0), seq!['}']);
        lemma_enc_at_join(
            s@,
            i as int,
            "{\"type\":\"authenticate\",\"id\":"@,
            enc_metadata_fields(out@->Authenticate_0) + seq!['}'],
        );
        assert("{\"type\":\"authenticate\",\"id\":"@ + (enc_metadata_fields(
            out@->Authenticate_0,
        ) + seq!['}']) =~= enc_result(out@));
        assert forall|v: MethodResultV|
            v is Authenticate && enc_at(s@, i as int, #[trigger] enc_result(v)) implies out@ == v
            && j6 + 1 == i + enc_result(v).len() by {
            lemma_result_parts(s@, i as int, v);
        }
    }
    Some((out, j6 + 1))
}

/// Reads one method result object. Succeeds on, and only on, exactly the
/// fragments that [`enc_result`] produces.
#[verifier::rlimit(100)]
fn parse_result(s: &Vec<char>, i: usize) -> (r: Option<(MethodResult, usize)>)
    requires
        i <= s@.len(),
    ensures
        r matches Some(p) ==> enc_at(s@, i as int, enc_result(p.0@)) && p.1 as int == i
            + enc_result(p.0@).len() && p.1 <= s@.len(),
        forall|v: MethodResultV|
            enc_at(s@, i as int, #[trigger] enc_result(v)) ==> (r matches Some(p) && p.0@ == v
                && p.1 as int == i + enc_result(v).len()),
{
    let slen: usize = s.len();
    proof {
        reveal_strlit("{\"type\":\"authenticate\",\"id\":");
        reveal_strlit("{\"type\":\"matches\",\"items\":");
        reveal_strlit("{\"type\":\"error\",\"message\":");
        reveal_strlit("{\"type\":\"none\"}");
    }
    if let Some(j1) = skip_lit(s, i, "{\"type\":\"authenticate\",\"id\":") {
        proof {
            assert forall|v: MethodResultV|
                enc_at(s@, i as int, #[trigger] enc_result(v)) implies v is Authenticate by {
                lemma_result_parts(s@, i as int, v);
                match v {
                    MethodResultV::Authenticate(..) => {},
                    MethodResultV::Matches(..) => {
                        lemma_lit_char(s@, i as int, "{\"type\":\"authenticate\",\"id\":"@, 9);
                        lemma_lit_char(s@, i as int, "{\"type\":\"matches\",\"items\":"@, 9);
                    },
                    MethodResultV::Error(..) => {
                        lemma_lit_char(s@, i as int, "{\"type\":\"authenticate\",\"id\":"@, 9);
                        lemma_lit_char(s@, i as int, "{\"type\":\"error\",\"message\":"@, 9);
                    },
                    MethodResultV::NoResult => {
                        lemma_lit_char(s@, i as int, "{\"type\":\"authenticate\",\"id\":"@, 9);
                        lemma_lit_char(s@, i as int, "{\"type\":\"none\"}"@, 9);
                    },
                }
            }
        }
        return parse_result_auth(s, i, j1);
    }
    if let Some(j1) = skip_lit(s, i, "{\"type\":\"matches\",\"items\":") {
        proof {
            assert forall|v: MethodResultV|
                enc_at(s@, i as int, #[trigger] enc_result(v)) implies v is Matches && enc_at(
                s@,
                j1 as int,
                enc_matches(v->Matches_0),
            ) by {
                lemma_result_parts(s@, i as int, v);
                match v {
                    MethodResultV::Matches(..) => {},
                    MethodResultV::Authenticate(..) => {},
                    MethodResultV::Error(..) => {
                        lemma_lit_char(s@, i as int, "{\"type\":\"matches\",\"items\":"@, 9);
                        lemma_lit_char(s@, i as int, "{\"type\":\"error\",\"message\":"@, 9);
                    },
                    MethodResultV::NoResult => {
                        lemma_lit_char(s@, i as int, "{\"type\":\"matches\",\"items\":"@, 9);
                        lemma_lit_char(s@, i as int, "{\"type\":\"none\"}"@, 9);
                    },
                }
            }
        }
        let items = match parse_match_list(s, j1) {
            Some(p) => p,
            None => {
                proof {
                    assert forall|v: MethodResultV|
                        !enc_at(s@, i as int, #[trigger] enc_result(v)) by {}
                }
                return None;
            },
        };
        let j2: usize = items.1;
        if j2 >= slen || s[j2] != '}' {
            proof {
                assert forall|v: MethodResultV|
                    !enc_at(s@, i as int, #[trigger] enc_result(v)) by {
                    if enc_at(s@, i as int, enc_result(v)) {
                        lemma_result_parts(s@, i as int, v);
                        assert(items.0.deep_view() == v->Matches_0);
                        lemma_lit_char(
                            s@,
                            i + "{\"type\":\"matches\",\"items\":"@.len() + enc_matches(
                                v->Matches_0,
                            ).len(),
                            seq!['}'],
                            0,
                        );
                    }
                }
            }
            return None;
        }
        let out = MethodResult::Matches { items: items.0 };
        proof {
            assert(s@.subrange(j2 as int, j2 + 1) =~= seq!['}']);
            lemma_enc_at_join(s@, j1 as int, enc_matches(out@->Matches_0), seq!['}']);
            lemma_enc_at_join(
                s@,
                i as int,
                "{\"type\":\"matches\",\"items\":"@,
                enc_matches(out@->Matches_0) + seq!['}'],
            );
            assert("{\"type\":\"matches\",\"items\":"@ + (enc_matches(out@->Matches_0) + seq![
                '}',
            ]) =~= enc_result(out@));
            assert forall|v: MethodResultV|
                enc_at(s@, i as int, #[trigger] enc_result(v)) implies out@ == v && j2 + 1 == i
                + enc_result(v).len() by {
                lemma_result_parts(s@, i as int, v);
                assert(items.0.deep_view() == v->Matches_0);
            }
        }
        return Some((out, j2 + 1));
    }
    if let Some(j1) = skip_lit(s, i, "{\"type\":\"error\",\"message\":") {
        proof {
            assert forall|v: MethodResultV|
                enc_at(s@, i as int, #[trigger] enc_result(v)) implies v is Error && enc_at(
                s@,
                j1 as int,
                enc_str(v->Error_0),
            ) by {
                lemma_result_parts(s@, i as int, v);
                match v {
                    MethodResultV::Error(..) => {},
                    MethodResultV::Authenticate(..) => {},
                    MethodResultV::Matches(..) => {},
                    MethodResultV::NoResult => {
                        lemma_lit_char(s@, i as int, "{\"type\":\"error\",\"message\":"@, 9);
                        lemma_lit_char(s@, i as int, "{\"type\":\"none\"}"@, 9);
                    },
                }
            }
        }
        let e = match parse_string(s, j1) {
            Some(p) => p,
            None => {
                proof {
                    assert forall|v: MethodResultV|
                        !enc_at(s@, i as int, #[trigger] enc_result(v)) by {}
                }
                return None;
            },
        };
        let j2: usize = e.1;
        if j2 >= slen || s[j2] != '}' {
            proof {
                assert forall|v: MethodResultV|
                    !enc_at(s@, i as int, #[trigger] enc_result(v)) by {
                    if enc_at(s@, i as int, enc_result(v)) {
                        lemma_result_parts(s@, i as int, v);
                        assert(e.0@ == v->Error_0);
                        lemma_lit_char(
                            s@,
                            i + "{\"type\":\"error\",\"message\":"@.len() + enc_str(
                                v->Error_0,
                            ).len(),
                            seq!['}'],
                            0,
                        );
                    }
                }
            }
            return None;
        }
        let out = MethodResult::Error(e.0);
        proof {
            assert(s@.subrange(j2 as int, j2 + 1) =~= seq!['}']);
            lemma_enc_at_join(s@, j1 as int, enc_str(out@->Error_0), seq!['}']);
            lemma_enc_at_join(
                s@,
                i as int,
                "{\"type\":\"error\",\"message\":"@,
                enc_str(out@->Error_0) + seq!['}'],
            );
            assert("{\"type\":\"error\",\"message\":"@ + (enc_str(out@->Error_0) + seq!['}'])
                =~= enc_result(out@));
            assert forall|v: MethodResultV|
                enc_at(s@, i as int, #[trigger] enc_result(v)) implies out@ == v && j2 + 1 == i
                + enc_result(v).len() by {
                lemma_result_parts(s@, i as int, v);
                assert(e.0@ == v->Error_0);
            }
        }
        return Some((out, j2 + 1));
    }
    if let Some(j1) = skip_lit(s, i, "{\"type\":\"none\"}") {
        proof {
            assert forall|v: MethodResultV|
                enc_at(s@, i as int, #[trigger] enc_result(v)) implies v is NoResult && j1 as int
                == i + enc_result(v).len() by {
                lemma_result_parts(s@, i as int, v);
            }
            assert(enc_result(MethodResultV::NoResult) == "{\"type\":\"none\"}"@);
        }
        return Some((MethodResult::NoResult, j1));
    }
    proof {
        assert forall|v: MethodResultV| !enc_at(s@, i as int, #[trigger] enc_result(v)) by {
            if enc_at(s@, i as int, enc_result(v)) {
                lemma_result_parts(s@, i as int, v);
            }
        }
    }
    None
}

/// Every encoded method result opens with a brace and a `type` key.
proof fn lemma_result_first_char(v: MethodResultV)
    ensures
        enc_result(v).len() >= 1,
        enc_result(v)[0] == '{',
{
    reveal_strlit("{\"type\":\"authenticate\",\"id\":");
    reveal_strlit("{\"type\":\"matches\",\"items\":");
    reveal_strlit("{\"type\":\"error\",\"message\":");
    reveal_strlit("{\"type\":\"none\"}");
    match v {
        MethodResultV::Authenticate(..) => {
            assert(enc_result(v)[0] == "{\"type\":\"authenticate\",\"id\":"@[0]);
        },
        MethodResultV::Matches(..) => {
            assert(enc_result(v)[0] == "{\"type\":\"matches\",\"items\":"@[0]);
        },
        MethodResultV::Error(..) => {
            assert(enc_result(v)[0] == "{\"type\":\"error\",\"message\":"@[0]);
        },
        MethodResultV::NoResult => {
            assert(enc_result(v)[0] == "{\"type\":\"none\"}"@[0]);
        },
    }
}

/// Reads a `result` member: either `null` or a method result object.
fn parse_opt_result(s: &Vec<char>, i: usize) -> (r: Option<(Option<MethodResult>, usize)>)
    requires
        i <= s@.len(),
    ensures
        r matches Some(p) ==> enc_at(s@, i as int, enc_opt_result(p.0.deep_view())) && p.1 as int
            == i + enc_opt_result(p.0.deep_view()).len() && p.1 <= s@.len(),
        forall|v: Option<MethodResultV>|
            enc_at(s@, i as int, #[trigger] enc_opt_result(v)) ==> (r matches Some(p)
                && p.0.deep_view() == v && p.1 as int == i + enc_opt_result(v).len()),
{
    proof {
        reveal_strlit("null");
    }
    if let Some(j) = skip_lit(s, i, "null") {
        proof {
            assert forall|v: Option<MethodResultV>|
                enc_at(s@, i as int, #[trigger] enc_opt_result(v)) implies v is None by {
                if v is Some {
                    lemma_result_first_char(v.unwrap());
                    lemma_lit_char(s@, i as int, "null"@, 0);
                    lemma_lit_char(s@, i as int, enc_result(v.unwrap()), 0);
                }
            }
        }
        return Some((None, j));
    }
    match parse_result(s, i) {
        Some((res, j)) => {
            proof {
                assert forall|v: Option<MethodResultV>|
                    enc_at(s@, i as int, #[trigger] enc_opt_result(v)) implies v is Some
                    && v.unwrap() == res@ by {
                    if v is None {
                        assert(enc_at(s@, i as int, "null"@));
                        assert(false);
                    }
                }
            }
            Some((Some(res), j))
        },
        None => {
            proof {
                assert forall|v: Option<MethodResultV>|
                    !enc_at(s@, i as int, #[trigger] enc_opt_result(v)) by {
                    if v is Some {
                        if enc_at(s@, i as int, enc_opt_result(v)) {
                            assert(enc_at(s@, i as int, enc_result(v.unwrap())));
                            assert(false);
                        }
                    }
                }
            }
            None
        },
    }
}

/// Where the pieces of an encoded method sit, by variant.
proof fn lemma_method_parts(s: Seq<char>, i: int, v: MethodV)
    requires
        enc_at(s, i, enc_method_flat(v)),
    ensures
        v matches MethodV::Search(q) ==> enc_at(s, i, "\"method\":\"search\",\"params\":"@)
            && enc_at(s, i + "\"method\":\"search\",\"params\":"@.len(), enc_str(q)) && i
            + enc_method_flat(v).len() == i + "\"method\":\"search\",\"params\":"@.len() + enc_str(
            q,
        ).len(),
        v matches MethodV::Activate(mi, ai) ==> enc_at(
            s,
            i,
            "\"method\":\"activate\",\"params\":["@,
        ) && enc_at(s, i + "\"method\":\"activate\",\"params\":["@.len(), enc_u64(mi as int))
            && enc_at(
            s,
            i + "\"method\":\"activate\",\"params\":["@.len() + enc_u64(mi as int).len(),
            seq![','],
        ) && enc_at(
            s,
            i + "\"method\":\"activate\",\"params\":["@.len() + enc_u64(mi as int).len() + 1,
            enc_u64(ai as int),
        ) && enc_at(
            s,
            i + "\"method\":\"activate\",\"params\":["@.len() + enc_u64(mi as int).len() + 1
                + enc_u64(ai as int).len(),
            seq![']'],
        ) && i + enc_method_flat(v).len() == i + "\"method\":\"activate\",\"params\":["@.len()
            + enc_u64(mi as int).len() + 1 + enc_u64(ai as int).len() + 1,
        v matches MethodV::CallAction(k, ps) ==> enc_at(
            s,
            i,
            "\"method\":\"call_action\",\"params\":["@,
        ) && enc_at(s, i + "\"method\":\"call_action\",\"params\":["@.len(), enc_str(k)) && enc_at(
            s,
            i + "\"method\":\"call_action\",\"params\":["@.len() + enc_str(k).len(),
            seq![','],
        ) && enc_at(
            s,
            i + "\"method\":\"call_action\",\"params\":["@.len() + enc_str(k).len() + 1,
            enc_params(ps),
        ) && enc_at(
            s,
            i + "\"method\":\"call_action\",\"params\":["@.len() + enc_str(k).len() + 1
                + enc_params(ps).len(),
            seq![']'],
        ) && i + enc_method_flat(v).len() == i + "\"method\":\"call_action\",\"params\":["@.len()
            + enc_str(k).len() + 1 + enc_params(ps).len() + 1,
        v is Cancel ==> enc_at(s, i, "\"method\":\"cancel\""@) && i + enc_method_flat(v).len() == i
            + "\"method\":\"cancel\""@.len(),
        v is Quit ==> enc_at(s, i, "\"method\":\"quit\""@) && i + enc_method_flat(v).len() == i
            + "\"method\":\"quit\""@.len(),
{
    match v {
        MethodV::Search(q) => {
            let l1 = "\"method\":\"search\",\"params\":"@;
            assert(enc_method_flat(v) =~= l1 + enc_str(q));
            lemma_enc_at_split(s, i, l1, enc_str(q));
        },
        MethodV::Activate(mi, ai) => {
            let l1 = "\"method\":\"activate\",\"params\":["@;
            assert(enc_method_flat(v) =~= l1 + (enc_u64(mi as int) + (seq![','] + (enc_u64(
                ai as int,
            ) + seq![']']))));
            lemma_enc_at_split(
                s,
                i,
                l1,
                enc_u64(mi as int) + (seq![','] + (enc_u64(ai as int) + seq![']'])),
            );
            lemma_enc_at_split(
                s,
                i + l1.len(),
                enc_u64(mi as int),
                seq![','] + (enc_u64(ai as int) + seq![']']),
            );
            lemma_enc_at_split(
                s,
                i + l1.len() + enc_u64(mi as int).len(),
                seq![','],
                enc_u64(ai as int) + seq![']'],
            );
            lemma_enc_at_split(
                s,
                i + l1.len() + enc_u64(mi as int).len() + 1,
                enc_u64(ai as int),
                seq![']'],
            );
        },
        MethodV::CallAction(k, ps) => {
            let l1 = "\"method\":\"call_action\",\"params\":["@;
            assert(enc_method_flat(v) =~= l1 + (enc_str(k) + (seq![','] + (enc_params(ps) + seq![
                ']',
            ]))));
            lemma_enc_at_split(s, i, l1, enc_str(k) + (seq![','] + (enc_params(ps) + seq![']'])));
            lemma_enc_at_split(
                s,
                i + l1.len(),
                enc_str(k),
                seq![','] + (enc_params(ps) + seq![']']),
            );
            lemma_enc_at_split(
                s,
                i + l1.len() + enc_str(k).len(),
                seq![','],
                enc_params(ps) + seq![']'],
            );
            lemma_enc_at_split(
                s,
                i + l1.len() + enc_str(k).len() + 1,
                enc_params(ps),
                seq![']'],
            );
        },
        MethodV::Cancel => {},
        MethodV::Quit => {},
    }
}

/// Reads an `Activate` method after its opening literal.
#[verifier::rlimit(100)]
fn parse_method_activate(s: &Vec<char>, i: usize, j1: usize) -> (r: Option<(Method, usize)>)
    requires
        i <= j1 <= s@.len(),
        enc_at(s@, i as int, "\"method\":\"activate\",\"params\":["@),
        j1 as int == i + "\"method\":\"activate\",\"params\":["@.len(),
    ensures
        r matches Some(p) ==> enc_at(s@, i as int, enc_method_flat(p.0@)) && p.1 as int == i
            + enc_method_flat(p.0@).len() && p.1 <= s@.len(),
        forall|v: MethodV|
            v is Activate && enc_at(s@, i as int, #[trigger] enc_method_flat(v)) ==> (
            r matches Some(p) && p.0@ == v && p.1 as int == i + enc_method_flat(v).len()),
{
    let slen: usize = s.len();
    proof {
        assert forall|v: MethodV|
            v is Activate && enc_at(s@, i as int, #[trigger] enc_method_flat(v)) implies enc_at(
            s@,
            j1 as int,
            enc_u64(v->Activate_0 as int),
        ) && digit_delim(s@, j1 + enc_u64(v->Activate_0 as int).len()) by {
            lemma_method_parts(s@, i as int, v);
            lemma_lit_char(s@, j1 + enc_u64(v->Activate_0 as int).len(), seq![','], 0);
        }
    }
    let mi = match parse_usize(s, j1) {
        Some(p) => p,
        None => {
            proof {
                assert forall|v: MethodV|
                    !(v is Activate && enc_at(s@, i as int, #[trigger] enc_method_flat(v))) by {}
            }
            return None;
        },
    };
    let j2: usize = mi.1;
    if j2 >= slen || s[j2] != ',' {
        proof {
            assert forall|v: MethodV|
                !(v is Activate && enc_at(s@, i as int, #[trigger] enc_method_flat(v))) by {
                if v is Activate && enc_at(s@, i as int, enc_method_flat(v)) {
                    lemma_method_parts(s@, i as int, v);
                    assert(mi.0 == v->Activate_0);
                    lemma_lit_char(
                        s@,
                        i + "\"method\":\"activate\",\"params\":["@.len() + enc_u64(
                            v->Activate_0 as int,
                        ).len(),
                        seq![','],
                        0,
                    );
                }
            }
        }
        return None;
    }
    proof {
        assert forall|v: MethodV|
            v is Activate && enc_at(s@, i as int, #[trigger] enc_method_flat(v)) implies enc_at(
            s@,
            j2 + 1,
            enc_u64(v->Activate_1 as int),
        ) && digit_delim(s@, j2 + 1 + enc_u64(v->Activate_1 as int).len()) by {
            lemma_method_parts(s@, i as int, v);
            assert(mi.0 == v->Activate_0);
            lemma_lit_char(
                s@,
                i + "\"method\":\"activate\",\"params\":["@.len() + enc_u64(
                    v->Activate_0 as int,
                ).len() + 1 + enc_u64(v->Activate_1 as int).len(),
                seq![']'],
                0,
            );
        }
    }
    let ai = match parse_usize(s, j2 + 1) {
        Some(p) => p,
        None => {
            proof {
                assert forall|v: MethodV|
                    !(v is Activate && enc_at(s@, i as int, #[trigger] enc_method_flat(v))) by {}
            }
            return None;
        },
    };
    let j3: usize = ai.1;
    if j3 >= slen || s[j3] != ']' {
        proof {
            assert forall|v: MethodV|
                !(v is Activate && enc_at(s@, i as int, #[trigger] enc_method_flat(v))) by {
                if v is Activate && enc_at(s@, i as int, enc_method_flat(v)) {
                    lemma_method_parts(s@, i as int, v);
                    assert(mi.0 == v->Activate_0);
                    assert(ai.0 == v->Activate_1);
                    lemma_lit_char(
                        s@,
                        i + "\"method\":\"activate\",\"params\":["@.len() + enc_u64(
                            v->Activate_0 as int,
                        ).len() + 1 + enc_u64(v->Activate_1 as int).len(),
                        seq![']'],
                        0,
                    );
                }
            }
        }
        return None;
    }
    let out = Method::Activate(mi.0, ai.0);
    proof {
        assert(s@.subrange(j2 as int, j2 + 1) =~= seq![',']);
        assert(s@.subrange(j3 as int, j3 + 1) =~= seq![']']);
        lemma_enc_at_join(s@, j2 + 1, enc_u64(ai.0 as int), seq![']']);
        lemma_enc_at_join(s@, j2 as int, seq![','], enc_u64(ai.0 as int) + seq![']']);
        lemma_enc_at_join(
            s@,
            j1 as int,
            enc_u64(mi.0 as int),
            seq![','] + (enc_u64(ai.0 as int) + seq![']']),
        );
        lemma_enc_at_join(
            s@,
            i as int,
            "\"method\":\"activate\",\"params\":["@,
            enc_u64(mi.0 as int) + (seq![','] + (enc_u64(ai.0 as int) + seq![']'])),
        );
        assert("\"method\":\"activate\",\"params\":["@ + (enc_u64(mi.0 as int) + (seq![','] + (
        enc_u64(ai.0 as int) + seq![']']))) =~= enc_method_flat(out@));
        assert forall|v: MethodV|
            v is Activate && enc_at(s@, i as int, #[trigger] enc_method_flat(v)) implies out@ == v
            && j3 + 1 == i + enc_method_flat(v).len() by {
            lemma_method_parts(s@, i as int, v);
            assert(mi.0 == v->Activate_0);
            assert(ai.0 == v->Activate_1);
        }
    }
    Some((out, j3 + 1))
}

/// Reads a `CallAction` method after its opening literal.
#[verifier::rlimit(100)]
fn parse_method_call_action(s: &Vec<char>, i: usize, j1: usize) -> (r: Option<(Method, usize)>)
    requires
        i <= j1 <= s@.len(),
        enc_at(s@, i as int, "\"method\":\"call_action\",\"params\":["@),
        j1 as int == i + "\"method\":\"call_action\",\"params\":["@.len(),
    ensures
        r matches Some(p) ==> enc_at(s@, i as int, enc_method_flat(p.0@)) && p.1 as int == i
            + enc_method_flat(p.0@).len() && p.1 <= s@.len(),
        forall|v: MethodV|
            v is CallAction && enc_at(s@, i as int, #[trigger] enc_method_flat(v)) ==> (
            r matches Some(p) && p.0@ == v && p.1 as int == i + enc_method_flat(v).len()),
{
    let slen: usize = s.len();
    proof {
        assert forall|v: MethodV|
            v is CallAction && enc_at(s@, i as int, #[trigger] enc_method_flat(v)) implies enc_at(
            s@,
            j1 as int,
            enc_str(v->CallAction_0),
        ) by {
            lemma_method_parts(s@, i as int, v);
        }
    }
    let key = match parse_string(s, j1) {
        Some(p) => p,
        None => {
            proof {
                assert forall|v: MethodV|
                    !(v is CallAction && enc_at(s@, i as int, #[trigger] enc_method_flat(v))) by {}
            }
            return None;
        },
    };
    let j2: usize = key.1;
    if j2 >= slen || s[j2] != ',' {
        proof {
            assert forall|v: MethodV|
                !(v is CallAction && enc_at(s@, i as int, #[trigger] enc_method_flat(v))) by {
                if v is CallAction && enc_at(s@, i as int, enc_method_flat(v)) {
                    lemma_method_parts(s@, i as int, v);
                    assert(key.0@ == v->CallAction_0);
                    lemma_lit_char(
                        s@,
                        i + "\"method\":\"call_action\",\"params\":["@.len() + enc_str(
                            v->CallAction_0,
                        ).len(),
                        seq![','],
                        0,
                    );
                }
            }
        }
        return None;
    }
    proof {
        assert forall|v: MethodV|
            v is CallAction && enc_at(s@, i as int, #[trigger] enc_method_flat(v)) implies enc_at(
            s@,
            j2 + 1,
            enc_params(v->CallAction_1),
        ) by {
            lemma_method_parts(s@, i as int, v);
            assert(key.0@ == v->CallAction_0);
        }
    }
    let ps = match parse_params(s, j2 + 1) {
        Some(p) => p,
        None => {
            proof {
                assert forall|v: MethodV|
                    !(v is CallAction && enc_at(s@, i as int, #[trigger] enc_method_flat(v))) by {}
            }
            return None;
        },
    };
    let j3: usize = ps.1;
    if j3 >= slen || s[j3] != ']' {
        proof {
            assert forall|v: MethodV|
                !(v is CallAction && enc_at(s@, i as int, #[trigger] enc_method_flat(v))) by {
                if v is CallAction && enc_at(s@, i as int, enc_method_flat(v)) {
                    lemma_method_parts(s@, i as int, v);
                    assert(key.0@ == v->CallAction_0);
                    assert(ps.0.deep_view() == v->CallAction_1);
                    lemma_lit_char(
                        s@,
                        i + "\"method\":\"call_action\",\"params\":["@.len() + enc_str(
                            v->CallAction_0,
                        ).len() + 1 + enc_params(v->CallAction_1).len(),
                        seq![']'],
                        0,
                    );
                }
            }
        }
        return None;
    }
    let out = Method::CallAction(key.0, ps.0);
    proof {
        assert(s@.subrange(j2 as int, j2 + 1) =~= seq![',']);
        assert(s@.subrange(j3 as int, j3 + 1) =~= seq![']']);
        lemma_enc_at_join(s@, j2 + 1, enc_params(out@->CallAction_1), seq![']']);
        lemma_enc_at_join(
            s@,
            j2 as int,
            seq![','],
            enc_params(out@->CallAction_1) + seq![']'],
        );
        lemma_enc_at_join(
            s@,
            j1 as int,
            enc_str(out@->CallAction_0),
            seq![','] + (enc_params(out@->CallAction_1) + seq![']']),
        );
        lemma_enc_at_join(
            s@,
            i as int,
            "\"method\":\"call_action\",\"params\":["@,
            enc_str(out@->CallAction_0) + (seq![','] + (enc_params(out@->CallAction_1) + seq![
                ']',
            ])),
        );
        assert("\"method\":\"call_action\",\"params\":["@ + (enc_str(out@->CallAction_0) + (seq![
            ','
        ] + (enc_params(out@->CallAction_1) + seq![']']))) =~= enc_method_flat(out@));
        assert forall|v: MethodV|
            v is CallAction && enc_at(s@, i as int, #[trigger] enc_method_flat(v)) implies out@
            == v && j3 + 1 == i + enc_method_flat(v).len() by {
            lemma_method_parts(s@, i as int, v);
            assert(key.0@ == v->CallAction_0);
            assert(ps.0.deep_view() == v->CallAction_1);
        }
    }
    Some((out, j3 + 1))
}

/// Reads the members a method contributes to its envelope. Succeeds on, and
/// only on, exactly the fragments that [`enc_method_flat`] produces.
#[verifier::rlimit(100)]
fn parse_method_flat(s: &Vec<char>, i: usize) -> (r: Option<(Method, usize)>)
    requires
        i <= s@.len(),
    ensures
        r matches Some(p) ==> enc_at(s@, i as int, enc_method_flat(p.0@)) && p.1 as int == i
            + enc_method_flat(p.0@).len() && p.1 <= s@.len(),
        forall|v: MethodV|
            enc_at(s@, i as int, #[trigger] enc_method_flat(v)) ==> (r matches Some(p) && p.0@
                == v && p.1 as int == i + enc_method_flat(v).len()),
{
    proof {
        reveal_strlit("\"method\":\"search\",\"params\":");
        reveal_strlit("\"method\":\"activate\",\"params\":[");
        reveal_strlit("\"method\":\"call_action\",\"params\":[");
        reveal_strlit("\"method\":\"cancel\"");
        reveal_strlit("\"method\":\"quit\"");
    }
    if let Some(j1) = skip_lit(s, i, "\"method\":\"search\",\"params\":") {
        proof {
            assert forall|v: MethodV|
                enc_at(s@, i as int, #[trigger] enc_method_flat(v)) implies v is Search && enc_at(
                s@,
                j1 as int,
                enc_str(v->Search_0),
            ) by {
                lemma_method_parts(s@, i as int, v);
                match v {
                    MethodV::Search(..) => {},
                    MethodV::Activate(..) => {
                        lemma_lit_char(s@, i as int, "\"method\":\"search\",\"params\":"@, 10);
                        lemma_lit_char(s@, i as int, "\"method\":\"activate\",\"params\":["@, 10);
                    },
                    MethodV::CallAction(..) => {
                        lemma_lit_char(s@, i as int, "\"method\":\"search\",\"params\":"@, 10);
                        lemma_lit_char(
                            s@,
                            i as int,
                            "\"method\":\"call_action\",\"params\":["@,
                            10,
                        );
                    },
                    MethodV::Cancel => {
                        lemma_lit_char(s@, i as int, "\"method\":\"search\",\"params\":"@, 10);
                        lemma_lit_char(s@, i as int, "\"method\":\"cancel\""@, 10);
                    },
                    MethodV::Quit => {
                        lemma_lit_char(s@, i as int, "\"method\":\"search\",\"params\":"@, 10);
                        lemma_lit_char(s@, i as int, "\"method\":\"quit\""@, 10);
                    },
                }
            }
        }
        let q = match parse_string(s, j1) {
            Some(p) => p,
            None => {
                proof {
                    assert forall|v: MethodV|
                        !enc_at(s@, i as int, #[trigger] enc_method_flat(v)) by {}
                }
                return None;
            },
        };
        let out = Method::Search(q.0);
        proof {
            lemma_enc_at_join(
                s@,
                i as int,
                "\"method\":\"search\",\"params\":"@,
                enc_str(out@->Search_0),
            );
            assert("\"method\":\"search\",\"params\":"@ + enc_str(out@->Search_0)
                =~= enc_method_flat(out@));
            assert forall|v: MethodV|
                enc_at(s@, i as int, #[trigger] enc_method_flat(v)) implies out@ == v && q.1
                as int == i + enc_method_flat(v).len() by {
                lemma_method_parts(s@, i as int, v);
                assert(q.0@ == v->Search_0);
            }
        }
        return Some((out, q.1));
    }
    if let Some(j1) = skip_lit(s, i, "\"method\":\"activate\",\"params\":[") {
        proof {
            assert forall|v: MethodV|
                enc_at(s@, i as int, #[trigger] enc_method_flat(v)) implies v is Activate by {
                lemma_method_parts(s@, i as int, v);
                match v {
                    MethodV::Activate(..) => {},
                    MethodV::Search(..) => {},
                    MethodV::CallAction(..) => {
                        lemma_lit_char(s@, i as int, "\"method\":\"activate\",\"params\":["@, 10);
                        lemma_lit_char(
                            s@,
                            i as int,
                            "\"method\":\"call_action\",\"params\":["@,
                            10,
                        );
                    },
                    MethodV::Cancel => {
                        lemma_lit_char(s@, i as int, "\"method\":\"activate\",\"params\":["@, 10);
                        lemma_lit_char(s@, i as int, "\"method\":\"cancel\""@, 10);
                    },
                    MethodV::Quit => {
                        lemma_lit_char(s@, i as int, "\"method\":\"activate\",\"params\":["@, 10);
                        lemma_lit_char(s@, i as int, "\"method\":\"quit\""@, 10);
                    },
                }
            }
        }
        return parse_method_activate(s, i, j1);
    }
    if let Some(j1) = skip_lit(s, i, "\"method\":\"call_action\",\"params\":[") {
        proof {
            assert forall|v: MethodV|
                enc_at(s@, i as int, #[trigger] enc_method_flat(v)) implies v is CallAction by {
                lemma_method_parts(s@, i as int, v);
                match v {
                    MethodV::CallAction(..) => {},
                    MethodV::Search(..) => {},
                    MethodV::Activate(..) => {},
                    MethodV::Cancel => {
                        lemma_lit_char(
                            s@,
                            i as int,
                            "\"method\":\"call_action\",\"params\":["@,
                            12,
                        );
                        lemma_lit_char(s@, i as int, "\"method\":\"cancel\""@, 12);
                    },
                    MethodV::Quit => {
                        lemma_lit_char(
                            s@,
                            i as int,
                            "\"method\":\"call_action\",\"params\":["@,
                            10,
                        );
                        lemma_lit_char(s@, i as int, "\"method\":\"quit\""@, 10);
                    },
                }
            }
        }
        return parse_method_call_action(s, i, j1);
    }
    if let Some(j1) = skip_lit(s, i, "\"method\":\"cancel\"") {
        proof {
            assert forall|v: MethodV|
                enc_at(s@, i as int, #[trigger] enc_method_flat(v)) implies v is Cancel && j1
                as int == i + enc_method_flat(v).len() by {
                lemma_method_parts(s@, i as int, v);
                match v {
                    MethodV::Cancel => {},
                    MethodV::Search(..) => {},
                    MethodV::Activate(..) => {},
                    MethodV::CallAction(..) => {},
                    MethodV::Quit => {
                        lemma_lit_char(s@, i as int, "\"method\":\"cancel\""@, 10);
                        lemma_lit_char(s@, i as int, "\"method\":\"quit\""@, 10);
                    },
                }
            }
            assert(enc_method_flat(MethodV::Cancel) == "\"method\":\"cancel\""@);
        }
        return Some((Method::Cancel, j1));
    }
    if let Some(j1) = skip_lit(s, i, "\"method\":\"quit\"") {
        proof {
            assert forall|v: MethodV|
                enc_at(s@, i as int, #[trigger] enc_method_flat(v)) implies v is Quit && j1 as int
                == i + enc_method_flat(v).len() by {
                lemma_method_parts(s@, i as int, v);
            }
            assert(enc_method_flat(MethodV::Quit) == "\"method\":\"quit\""@);
        }
        return Some((Method::Quit, j1));
    }
    proof {
        assert forall|v: MethodV| !enc_at(s@, i as int, #[trigger] enc_method_flat(v)) by {
            if enc_at(s@, i as int, enc_method_flat(v)) {
                lemma_method_parts(s@, i as int, v);
            }
        }
    }
    None
}

/// Renders a message as its canonical JSON line (without the newline).
pub fn message_to_json(m: &Message) -> (r: String)
    ensures
        r@ == enc_message(m@),
{
    let mut out = String::new();
    match m {
        Message::Request { id, method, plugin_id } => {
            out.append("{\"id\":");
            append_usize(&mut out, *id);
            push_char(&mut out, ',');
            append_method_flat(&mut out, method);
            out.append(",\"plugin_id\":");
            append_opt_str(&mut out, plugin_id);
            push_char(&mut out, '}');
            proof {
                assert(out@ =~= enc_message(m@));
            }
        },
        Message::Response { id, error, result, plugin_id } => {
            out.append("{\"id\":");
            append_usize(&mut out, *id);
            out.append(",\"error\":");
            append_opt_str(&mut out, error);
            out.append(",\"plugin_id\":");
            append_opt_str(&mut out, plugin_id);
            out.append(",\"result\":");
            match result {
                Option::None => {
                    out.append("null");
                },
                Option::Some(res) => {
                    append_result(&mut out, res);
                },
            }
            push_char(&mut out, '}');
            proof {
                assert(out@ =~= enc_message(m@));
            }
        },
        Message::Notification { method } => {
            push_char(&mut out, '{');
            append_method_flat(&mut out, method);
            push_char(&mut out, '}');
            proof {
                assert(out@ =~= enc_message(m@));
            }
        },
    }
    out
}

/// Where the pieces of an encoded message sit, by shape.
proof fn lemma_message_parts(s: Seq<char>, i: int, v: MessageV)
    requires
        enc_at(s, i, enc_message(v)),
    ensures
        v matches MessageV::Request { id, method, plugin_id } ==> enc_at(s, i, "{\"id\":"@)
            && enc_at(s, i + "{\"id\":"@.len(), enc_u64(id as int)) && digit_delim(
            s,
            i + "{\"id\":"@.len() + enc_u64(id as int).len(),
        ) && enc_at(
            s,
            i + "{\"id\":"@.len() + enc_u64(id as int).len(),
            enc_request_tail(method, plugin_id),
        ) && i + enc_message(v).len() == i + "{\"id\":"@.len() + enc_u64(id as int).len()
            + enc_request_tail(method, plugin_id).len(),
        v matches MessageV::Response { id, error, result, plugin_id } ==> enc_at(s, i, "{\"id\":"@)
            && enc_at(s, i + "{\"id\":"@.len(), enc_u64(id as int)) && digit_delim(
            s,
            i + "{\"id\":"@.len() + enc_u64(id as int).len(),
        ) && enc_at(
            s,
            i + "{\"id\":"@.len() + enc_u64(id as int).len(),
            enc_response_tail(error, plugin_id, result),
        ) && i + enc_message(v).len() == i + "{\"id\":"@.len() + enc_u64(id as int).len()
            + enc_response_tail(error, plugin_id, result).len(),
        v matches MessageV::Notification { method } ==> enc_at(s, i, seq!['{']) && enc_at(
            s,
            i + 1,
            enc_method_flat(method),
        ) && enc_at(s, i + 1 + enc_method_flat(method).len(), seq!['}']) && i + enc_message(
            v,
        ).len() == i + 1 + enc_method_flat(method).len() + 1,
{
    reveal_strlit(",\"error\":");
    match v {
        MessageV::Request { id, method, plugin_id } => {
            let l1 = "{\"id\":"@;
            assert(enc_message(v) =~= l1 + (enc_u64(id as int) + enc_request_tail(
                method,
                plugin_id,
            )));
            lemma_enc_at_split(
                s,
                i,
                l1,
                enc_u64(id as int) + enc_request_tail(method, plugin_id),
            );
            lemma_enc_at_split(
                s,
                i + l1.len(),
                enc_u64(id as int),
                enc_request_tail(method, plugin_id),
            );
            assert(enc_request_tail(method, plugin_id)[0] == ',');
            lemma_lit_char(
                s,
                i + l1.len() + enc_u64(id as int).len(),
                enc_request_tail(method, plugin_id),
                0,
            );
        },
        MessageV::Response { id, error, result, plugin_id } => {
            let l1 = "{\"id\":"@;
            assert(enc_message(v) =~= l1 + (enc_u64(id as int) + enc_response_tail(
                error,
                plugin_id,
                result,
            )));
            lemma_enc_at_split(
                s,
                i,
                l1,
                enc_u64(id as int) + enc_response_tail(error, plugin_id, result),
            );
            lemma_enc_at_split(
                s,
                i + l1.len(),
                enc_u64(id as int),
                enc_response_tail(error, plugin_id, result),
            );
            assert(enc_response_tail(error, plugin_id, result)[0] == ',');
            lemma_lit_char(
                s,
                i + l1.len() + enc_u64(id as int).len(),
                enc_response_tail(error, plugin_id, result),
                0,
            );
        },
        MessageV::Notification { method } => {
            assert(enc_message(v) =~= seq!['{'] + (enc_method_flat(method) + seq!['}']));
            lemma_enc_at_split(s, i, seq!['{'], enc_method_flat(method) + seq!['}']);
            lemma_enc_at_split(s, i + 1, enc_method_flat(method), seq!['}']);
        },
    }
}

/// Where the pieces of a request tail sit.
proof fn lemma_request_tail_parts(
    s: Seq<char>,
    i: int,
    method: MethodV,
    plugin_id: Option<Seq<char>>,
)
    requires
        enc_at(s, i, enc_request_tail(method, plugin_id)),
    ensures
        enc_at(s, i, seq![',']),
        enc_at(s, i + 1, enc_method_flat(method)),
        enc_at(s, i + 1 + enc_method_flat(method).len(), ",\"plugin_id\":"@),
        enc_at(
            s,
            i + 1 + enc_method_flat(method).len() + ",\"plugin_id\":"@.len(),
            enc_opt_str(plugin_id),
        ),
        enc_at(
            s,
            i + 1 + enc_method_flat(method).len() + ",\"plugin_id\":"@.len() + enc_opt_str(
                plugin_id,
            ).len(),
            seq!['}'],
        ),
        i + enc_request_tail(method, plugin_id).len() == i + 1 + enc_method_flat(method).len()
            + ",\"plugin_id\":"@.len() + enc_opt_str(plugin_id).len() + 1,
{
    let l2 = ",\"plugin_id\":"@;
    assert(enc_request_tail(method, plugin_id) =~= seq![','] + (enc_method_flat(method) + (l2 + (
    enc_opt_str(plugin_id) + seq!['}']))));
    lemma_enc_at_split(
        s,
        i,
        seq![','],
        enc_method_flat(method) + (l2 + (enc_opt_str(plugin_id) + seq!['}'])),
    );
    lemma_enc_at_split(
        s,
        i + 1,
        enc_method_flat(method),
        l2 + (enc_opt_str(plugin_id) + seq!['}']),
    );
    lemma_enc_at_split(
        s,
        i + 1 + enc_method_flat(method).len(),
        l2,
        enc_opt_str(plugin_id) + seq!['}'],
    );
    lemma_enc_at_split(
        s,
        i + 1 + enc_method_flat(method).len() + l2.len(),
        enc_opt_str(plugin_id),
        seq!['}'],
    );
}

/// Where the pieces of a response tail sit.
proof fn lemma_response_tail_parts(
    s: Seq<char>,
    i: int,
    error: Option<Seq<char>>,
    plugin_id: Option<Seq<char>>,
    result: Option<MethodResultV>,
)
    requires
        enc_at(s, i, enc_response_tail(error, plugin_id, result)),
    ensures
        enc_at(s, i, ",\"error\":"@),
        enc_at(s, i + ",\"error\":"@.len(), enc_opt_str(error)),
        enc_at(
            s,
            i + ",\"error\":"@.len() + enc_opt_str(error).len(),
            ",\"plugin_id\":"@,
        ),
        enc_at(
            s,
            i + ",\"error\":"@.len() + enc_opt_str(error).len() + ",\"plugin_id\":"@.len(),
            enc_opt_str(plugin_id),
        ),
        enc_at(
            s,
            i + ",\"error\":"@.len() + enc_opt_str(error).len() + ",\"plugin_id\":"@.len()
                + enc_opt_str(plugin_id).len(),
            ",\"result\":"@,
        ),
        enc_at(
            s,
            i + ",\"error\":"@.len() + enc_opt_str(error).len() + ",\"plugin_id\":"@.len()
                + enc_opt_str(plugin_id).len() + ",\"result\":"@.len(),
            enc_opt_result(result),
        ),
        enc_at(
            s,
            i + ",\"error\":"@.len() + enc_opt_str(error).len() + ",\"plugin_id\":"@.len()
                + enc_opt_str(plugin_id).len() + ",\"result\":"@.len() + enc_opt_result(
                result,
            ).len(),
            seq!['}'],
        ),
        i + enc_response_tail(error, plugin_id, result).len() == i + ",\"error\":"@.len()
            + enc_opt_str(error).len() + ",\"plugin_id\":"@.len() + enc_opt_str(plugin_id).len()
            + ",\"result\":"@.len() + enc_opt_result(result).len() + 1,
{
    let l1 = ",\"error\":"@;
    let l2 = ",\"plugin_id\":"@;
    let l3 = ",\"result\":"@;
    let e1 = enc_opt_str(error);
    let e2 = enc_opt_str(plugin_id);
    let e3 = enc_opt_result(result);
    assert(enc_response_tail(error, plugin_id, result) =~= l1 + (e1 + (l2 + (e2 + (l3 + (e3
        + seq!['}']))))));
    lemma_enc_at_split(s, i, l1, e1 + (l2 + (e2 + (l3 + (e3 + seq!['}'])))));
    lemma_enc_at_split(s, i + l1.len(), e1, l2 + (e2 + (l3 + (e3 + seq!['}']))));
    lemma_enc_at_split(s, i + l1.len() + e1.len(), l2, e2 + (l3 + (e3 + seq!['}'])));
    lemma_enc_at_split(s, i + l1.len() + e1.len() + l2.len(), e2, l3 + (e3 + seq!['}']));
    lemma_enc_at_split(s, i + l1.len() + e1.len() + l2.len() + e2.len(), l3, e3 + seq!['}']);
    lemma_enc_at_split(
        s,
        i + l1.len() + e1.len() + l2.len() + e2.len() + l3.len(),
        e3,
        seq!['}'],
    );
}

/// Reads what follows a request's id.
#[verifier::rlimit(100)]
fn parse_request_tail(s: &Vec<char>, i: usize) -> (r: Option<(Method, Option<String>, usize)>)
    requires
        i <= s@.len(),
    ensures
        r matches Some(p) ==> enc_at(s@, i as int, enc_request_tail(p.0@, p.1.deep_view())) && p.2
            as int == i + enc_request_tail(p.0@, p.1.deep_view()).len() && p.2 <= s@.len(),
        forall|mv: MethodV, pv: Option<Seq<char>>|
            enc_at(s@, i as int, #[trigger] enc_request_tail(mv, pv)) ==> (r matches Some(p)
                && p.0@ == mv && p.1.deep_view() == pv && p.2 as int == i + enc_request_tail(
                mv,
                pv,
            ).len()),
{
    let slen: usize = s.len();
    proof {
        reveal_strlit(",\"plugin_id\":");
        assert forall|mv: MethodV, pv: Option<Seq<char>>|
            enc_at(s@, i as int, #[trigger] enc_request_tail(mv, pv)) implies i < slen && s@[
            i as int
        ] == ',' && enc_at(s@, i + 1, enc_method_flat(mv)) by {
            lemma_request_tail_parts(s@, i as int, mv, pv);
            lemma_lit_char(s@, i as int, seq![','], 0);
        }
    }
    if i >= slen || s[i] != ',' {
        return None;
    }
    let m = match parse_method_flat(s, i + 1) {
        Some(p) => p,
        None => {
            proof {
                assert forall|mv: MethodV, pv: Option<Seq<char>>|
                    !enc_at(s@, i as int, #[trigger] enc_request_tail(mv, pv)) by {}
            }
            return None;
        },
    };
    let j2: usize = m.1;
    let j3 = match skip_lit(s, j2, ",\"plugin_id\":") {
        Some(j) => j,
        None => {
            proof {
                assert forall|mv: MethodV, pv: Option<Seq<char>>|
                    !enc_at(s@, i as int, #[trigger] enc_request_tail(mv, pv)) by {
                    if enc_at(s@, i as int, enc_request_tail(mv, pv)) {
                        lemma_request_tail_parts(s@, i as int, mv, pv);
                        assert(m.0@ == mv);
                    }
                }
            }
            return None;
        },
    };
    let pid = match parse_opt_str(s, j3) {
        Some(p) => p,
        None => {
            proof {
                assert forall|mv: MethodV, pv: Option<Seq<char>>|
                    !enc_at(s@, i as int, #[trigger] enc_request_tail(mv, pv)) by {
                    if enc_at(s@, i as int, enc_request_tail(mv, pv)) {
                        lemma_request_tail_parts(s@, i as int, mv, pv);
                        assert(m.0@ == mv);
                    }
                }
            }
            return None;
        },
    };
    let j4: usize = pid.1;
    if j4 >= slen || s[j4] != '}' {
        proof {
            assert forall|mv: MethodV, pv: Option<Seq<char>>|
                !enc_at(s@, i as int, #[trigger] enc_request_tail(mv, pv)) by {
                if enc_at(s@, i as int, enc_request_tail(mv, pv)) {
                    lemma_request_tail_parts(s@, i as int, mv, pv);
                    assert(m.0@ == mv);
                    assert(pid.0.deep_view() == pv);
                    lemma_lit_char(
                        s@,
                        i + 1 + enc_method_flat(mv).len() + ",\"plugin_id\":"@.len()
                            + enc_opt_str(pv).len(),
                        seq!['}'],
                        0,
                    );
                }
            }
        }
        return None;
    }
    proof {
        assert(s@.subrange(i as int, i + 1) =~= seq![',']);
        assert(s@.subrange(j4 as int, j4 + 1) =~= seq!['}']);
        lemma_enc_at_join(s@, j3 as int, enc_opt_str(pid.0.deep_view()), seq!['}']);
        lemma_enc_at_join(
            s@,
            j2 as int,
            ",\"plugin_id\":"@,
            enc_opt_str(pid.0.deep_view()) + seq!['}'],
        );
        lemma_enc_at_join(
            s@,
            i + 1,
            enc_method_flat(m.0@),
            ",\"plugin_id\":"@ + (enc_opt_str(pid.0.deep_view()) + seq!['}']),
        );
        lemma_enc_at_join(
            s@,
            i as int,
            seq![','],
            enc_method_flat(m.0@) + (",\"plugin_id\":"@ + (enc_opt_str(pid.0.deep_view()) + seq![
                '}',
            ])),
        );
        assert(seq![','] + (enc_method_flat(m.0@) + (",\"plugin_id\":"@ + (enc_opt_str(
            pid.0.deep_view(),
        ) + seq!['}']))) =~= enc_request_tail(m.0@, pid.0.deep_view()));
        assert forall|mv: MethodV, pv: Option<Seq<char>>|
            enc_at(s@, i as int, #[trigger] enc_request_tail(mv, pv)) implies m.0@ == mv
            && pid.0.deep_view() == pv && j4 + 1 == i + enc_request_tail(mv, pv).len() by {
            lemma_request_tail_parts(s@, i as int, mv, pv);
        }
    }
    Some((m.0, pid.0, j4 + 1))
}

/// Reads what follows a response's id.
#[verifier::rlimit(100)]
fn parse_response_tail(s: &Vec<char>, i: usize) -> (r: Option<
    (Option<String>, Option<String>, Option<MethodResult>, usize),
>)
    requires
        i <= s@.len(),
    ensures
        r matches Some(p) ==> enc_at(
            s@,
            i as int,
            enc_response_tail(p.0.deep_view(), p.1.deep_view(), p.2.deep_view()),
        ) && p.3 as int == i + enc_response_tail(
            p.0.deep_view(),
            p.1.deep_view(),
            p.2.deep_view(),
        ).len() && p.3 <= s@.len(),
        forall|ev: Option<Seq<char>>, pv: Option<Seq<char>>, rv: Option<MethodResultV>|
            enc_at(s@, i as int, #[trigger] enc_response_tail(ev, pv, rv)) ==> (r matches Some(p)
                && p.0.deep_view() == ev && p.1.deep_view() == pv && p.2.deep_view() == rv && p.3
                as int == i + enc_response_tail(ev, pv, rv).len()),
{
    let slen: usize = s.len();
    proof {
        reveal_strlit(",\"error\":");
        reveal_strlit(",\"plugin_id\":");
        reveal_strlit(",\"result\":");
    }
    let j1 = match skip_lit(s, i, ",\"error\":") {
        Some(j) => j,
        None => {
            proof {
                assert forall|ev: Option<Seq<char>>, pv: Option<Seq<char>>, rv: Option<
                    MethodResultV,
                >| !enc_at(s@, i as int, #[trigger] enc_response_tail(ev, pv, rv)) by {
                    if enc_at(s@, i as int, enc_response_tail(ev, pv, rv)) {
                        lemma_response_tail_parts(s@, i as int, ev, pv, rv);
                    }
                }
            }
            return None;
        },
    };
    proof {
        assert forall|ev: Option<Seq<char>>, pv: Option<Seq<char>>, rv: Option<MethodResultV>|
            enc_at(s@, i as int, #[trigger] enc_response_tail(ev, pv, rv)) implies enc_at(
            s@,
            j1 as int,
            enc_opt_str(ev),
        ) by {
            lemma_response_tail_parts(s@, i as int, ev, pv, rv);
        }
    }
    let err = match parse_opt_str(s, j1) {
        Some(p) => p,
        None => {
            proof {
                assert forall|ev: Option<Seq<char>>, pv: Option<Seq<char>>, rv: Option<
                    MethodResultV,
                >| !enc_at(s@, i as int, #[trigger] enc_response_tail(ev, pv, rv)) by {}
            }
            return None;
        },
    };
    let j2 = match skip_lit(s, err.1, ",\"plugin_id\":") {
        Some(j) => j,
        None => {
            proof {
                assert forall|ev: Option<Seq<char>>, pv: Option<Seq<char>>, rv: Option<
                    MethodResultV,
                >| !enc_at(s@, i as int, #[trigger] enc_response_tail(ev, pv, rv)) by {
                    if enc_at(s@, i as int, enc_response_tail(ev, pv, rv)) {
                        lemma_response_tail_parts(s@, i as int, ev, pv, rv);
                        assert(err.0.deep_view() == ev);
                    }
                }
            }
            return None;
        },
    };
    let pid = match parse_opt_str(s, j2) {
        Some(p) => p,
        None => {
            proof {
                assert forall|ev: Option<Seq<char>>, pv: Option<Seq<char>>, rv: Option<
                    MethodResultV,
                >| !enc_at(s@, i as int, #[trigger] enc_response_tail(ev, pv, rv)) by {
                    if enc_at(s@, i as int, enc_response_tail(ev, pv, rv)) {
                        lemma_response_tail_parts(s@, i as int, ev, pv, rv);
                        assert(err.0.deep_view() == ev);
                    }
                }
            }
            return None;
        },
    };
    let j3 = match skip_lit(s, pid.1, ",\"result\":") {
        Some(j) => j,
        None => {
            proof {
                assert forall|ev: Option<Seq<char>>, pv: Option<Seq<char>>, rv: Option<
                    MethodResultV,
                >| !enc_at(s@, i as int, #[trigger] enc_response_tail(ev, pv, rv)) by {
                    if enc_at(s@, i as int, enc_response_tail(ev, pv, rv)) {
                        lemma_response_tail_parts(s@, i as int, ev, pv, rv);
                        assert(err.0.deep_view() == ev);
                        assert(pid.0.deep_view() == pv);
                    }
                }
            }
            return None;
        },
    };
    let res = match parse_opt_result(s, j3) {
        Some(p) => p,
        None => {
            proof {
                assert forall|ev: Option<Seq<char>>, pv: Option<Seq<char>>, rv: Option<
                    MethodResultV,
                >| !enc_at(s@, i as int, #[trigger] enc_response_tail(ev, pv, rv)) by {
                    if enc_at(s@, i as int, enc_response_tail(ev, pv, rv)) {
                        lemma_response_tail_parts(s@, i as int, ev, pv, rv);
                        assert(err.0.deep_view() == ev);
                        assert(pid.0.deep_view() == pv);
                    }
                }
            }
            return None;
        },
    };
    let j4: usize = res.1;
    if j4 >= slen || s[j4] != '}' {
        proof {
            assert forall|ev: Option<Seq<char>>, pv: Option<Seq<char>>, rv: Option<MethodResultV>|
                !enc_at(s@, i as int, #[trigger] enc_response_tail(ev, pv, rv)) by {
                if enc_at(s@, i as int, enc_response_tail(ev, pv, rv)) {
                    lemma_response_tail_parts(s@, i as int, ev, pv, rv);
                    assert(err.0.deep_view() == ev);
                    assert(pid.0.deep_view() == pv);
                    assert(res.0.deep_view() == rv);
                    lemma_lit_char(
                        s@,
                        i + ",\"error\":"@.len() + enc_opt_str(ev).len()
                            + ",\"plugin_id\":"@.len() + enc_opt_str(pv).len()
                            + ",\"result\":"@.len() + enc_opt_result(rv).len(),
                        seq!['}'],
                        0,
                    );
                }
            }
        }
        return None;
    }
    proof {
        assert(s@.subrange(j4 as int, j4 + 1) =~= seq!['}']);
        lemma_enc_at_join(s@, j3 as int, enc_opt_result(res.0.deep_view()), seq!['}']);
        lemma_enc_at_join(
            s@,
            pid.1 as int,
            ",\"result\":"@,
            enc_opt_result(res.0.deep_view()) + seq!['}'],
        );
        lemma_enc_at_join(
            s@,
            j2 as int,
            enc_opt_str(pid.0.deep_view()),
            ",\"result\":"@ + (enc_opt_result(res.0.deep_view()) + seq!['}']),
        );
        lemma_enc_at_join(
            s@,
            err.1 as int,
            ",\"plugin_id\":"@,
            enc_opt_str(pid.0.deep_view()) + (",\"result\":"@ + (enc_opt_result(
                res.0.deep_view(),
            ) + seq!['}'])),
        );
        lemma_enc_at_join(
            s@,
            j1 as int,
            enc_opt_str(err.0.deep_view()),
            ",\"plugin_id\":"@ + (enc_opt_str(pid.0.deep_view()) + (",\"result\":"@ + (
            enc_opt_result(res.0.deep_view()) + seq!['}']))),
        );
        lemma_enc_at_join(
            s@,
            i as int,
            ",\"error\":"@,
            enc_opt_str(err.0.deep_view()) + (",\"plugin_id\":"@ + (enc_opt_str(
                pid.0.deep_view(),
            ) + (",\"result\":"@ + (enc_opt_result(res.0.deep_view()) + seq!['}'])))),
        );
        assert(",\"error\":"@ + (enc_opt_str(err.0.deep_view()) + (",\"plugin_id\":"@ + (
        enc_opt_str(pid.0.deep_view()) + (",\"result\":"@ + (enc_opt_result(res.0.deep_view())
            + seq!['}']))))) =~= enc_response_tail(
            err.0.deep_view(),
            pid.0.deep_view(),
            res.0.deep_view(),
        ));
        assert forall|ev: Option<Seq<char>>, pv: Option<Seq<char>>, rv: Option<MethodResultV>|
            enc_at(s@, i as int, #[trigger] enc_response_tail(ev, pv, rv)) implies err.0.deep_view()
            == ev && pid.0.deep_view() == pv && res.0.deep_view() == rv && j4 + 1 == i
            + enc_response_tail(ev, pv, rv).len() by {
            lemma_response_tail_parts(s@, i as int, ev, pv, rv);
        }
    }
    Some((err.0, pid.0, res.0, j4 + 1))
}

/// A message that opens with an `id` member is not a notification.
proof fn lemma_id_not_notification(s: Seq<char>, i: int, v: MessageV)
    requires
        enc_at(s, i, enc_message(v)),
        enc_at(s, i, "{\"id\":"@),
    ensures
        !(v is Notification),
{
    reveal_strlit("{\"id\":");
    reveal_strlit("\"method\":\"search\",\"params\":");
    reveal_strlit("\"method\":\"activate\",\"params\":[");
    reveal_strlit("\"method\":\"call_action\",\"params\":[");
    reveal_strlit("\"method\":\"cancel\"");
    reveal_strlit("\"method\":\"quit\"");
    lemma_message_parts(s, i, v);
    if v is Notification {
        let method = v->Notification_method;
        lemma_lit_char(s, i, "{\"id\":"@, 2);
        lemma_method_parts(s, i + 1, method);
        match method {
            MethodV::Search(..) => {
                lemma_lit_char(s, i + 1, "\"method\":\"search\",\"params\":"@, 1);
            },
            MethodV::Activate(..) => {
                lemma_lit_char(s, i + 1, "\"method\":\"activate\",\"params\":["@, 1);
            },
            MethodV::CallAction(..) => {
                lemma_lit_char(s, i + 1, "\"method\":\"call_action\",\"params\":["@, 1);
            },
            MethodV::Cancel => {
                lemma_lit_char(s, i + 1, "\"method\":\"cancel\""@, 1);
            },
            MethodV::Quit => {
                lemma_lit_char(s, i + 1, "\"method\":\"quit\""@, 1);
            },
        }
    }
}

/// A message whose id is followed by an `error` member is not a request.
proof fn lemma_error_not_request(s: Seq<char>, i: int, j2: int, id: usize, v: MessageV)
    requires
        enc_at(s, i, enc_message(v)),
        v matches MessageV::Request { id: vid, .. } ==> vid == id,
        j2 == i + "{\"id\":"@.len() + enc_u64(id as int).len(),
        enc_at(s, j2, ",\"error\":"@),
    ensures
        !(v is Request),
{
    reveal_strlit(",\"error\":");
    reveal_strlit("\"method\":\"search\",\"params\":");
    reveal_strlit("\"method\":\"activate\",\"params\":[");
    reveal_strlit("\"method\":\"call_action\",\"params\":[");
    reveal_strlit("\"method\":\"cancel\"");
    reveal_strlit("\"method\":\"quit\"");
    lemma_message_parts(s, i, v);
    if v is Request {
        let method = v->Request_method;
        let plugin_id = v->Request_plugin_id;
        lemma_request_tail_parts(s, j2, method, plugin_id);
        lemma_method_parts(s, j2 + 1, method);
        lemma_lit_char(s, j2, ",\"error\":"@, 2);
        match method {
            MethodV::Search(..) => {
                lemma_lit_char(s, j2 + 1, "\"method\":\"search\",\"params\":"@, 1);
            },
            MethodV::Activate(..) => {
                lemma_lit_char(s, j2 + 1, "\"method\":\"activate\",\"params\":["@, 1);
            },
            MethodV::CallAction(..) => {
                lemma_lit_char(s, j2 + 1, "\"method\":\"call_action\",\"params\":["@, 1);
            },
            MethodV::Cancel => {
                lemma_lit_char(s, j2 + 1, "\"method\":\"cancel\""@, 1);
            },
            MethodV::Quit => {
                lemma_lit_char(s, j2 + 1, "\"method\":\"quit\""@, 1);
            },
        }
    }
}

/// Reads one whole message. Succeeds on, and only on, exactly the fragments
/// that [`enc_message`] produces.
#[verifier::rlimit(100)]
fn parse_message(s: &Vec<char>, i: usize) -> (r: Option<(Message, usize)>)
    requires
        i <= s@.len(),
    ensures
        r matches Some(p) ==> enc_at(s@, i as int, enc_message(p.0@)) && p.1 as int == i
            + enc_message(p.0@).len() && p.1 <= s@.len(),
        forall|v: MessageV|
            enc_at(s@, i as int, #[trigger] enc_message(v)) ==> (r matches Some(p) && p.0@ == v
                && p.1 as int == i + enc_message(v).len()),
{
    let slen: usize = s.len();
    proof {
        reveal_strlit("{\"id\":");
        reveal_strlit(",\"error\":");
    }
    if let Some(j1) = skip_lit(s, i, "{\"id\":") {
        proof {
            assert forall|v: MessageV|
                enc_at(s@, i as int, #[trigger] enc_message(v)) implies !(v is Notification) by {
                lemma_id_not_notification(s@, i as int, v);
            }
            assert forall|v: MessageV|
                enc_at(s@, i as int, #[trigger] enc_message(v)) implies (v matches
            MessageV::Request { id, .. } ==> enc_at(s@, j1 as int, enc_u64(id as int))
                && digit_delim(s@, j1 + enc_u64(id as int).len())) && (v matches
            MessageV::Response { id, .. } ==> enc_at(s@, j1 as int, enc_u64(id as int))
                && digit_delim(s@, j1 + enc_u64(id as int).len())) by {
                lemma_message_parts(s@, i as int, v);
            }
        }
        let idp = match parse_usize(s, j1) {
            Some(p) => p,
            None => {
                proof {
                    assert forall|v: MessageV|
                        !enc_at(s@, i as int, #[trigger] enc_message(v)) by {}
                }
                return None;
            },
        };
        let j2: usize = idp.1;
        if let Some(_j3) = skip_lit(s, j2, ",\"error\":") {
            proof {
                assert forall|v: MessageV|
                    enc_at(s@, i as int, #[trigger] enc_message(v)) implies (v matches
                MessageV::Response { id, error, result, plugin_id } && id == idp.0 && enc_at(
                    s@,
                    j2 as int,
                    enc_response_tail(error, plugin_id, result),
                )) by {
                    lemma_message_parts(s@, i as int, v);
                    lemma_error_not_request(s@, i as int, j2 as int, idp.0, v);
                }
            }
            let tail = match parse_response_tail(s, j2) {
                Some(p) => p,
                None => {
                    proof {
                        assert forall|v: MessageV|
                            !enc_at(s@, i as int, #[trigger] enc_message(v)) by {}
                    }
                    return None;
                },
            };
            let out = Message::Response {
                id: idp.0,
                error: tail.0,
                result: tail.2,
                plugin_id: tail.1,
            };
            proof {
                lemma_enc_at_join(
                    s@,
                    j1 as int,
                    enc_u64(idp.0 as int),
                    enc_response_tail(
                        out@->Response_error,
                        out@->Response_plugin_id,
                        out@->Response_result,
                    ),
                );
                lemma_enc_at_join(
                    s@,
                    i as int,
                    "{\"id\":"@,
                    enc_u64(idp.0 as int) + enc_response_tail(
                        out@->Response_error,
                        out@->Response_plugin_id,
                        out@->Response_result,
                    ),
                );
                assert("{\"id\":"@ + (enc_u64(idp.0 as int) + enc_response_tail(
                    out@->Response_error,
                    out@->Response_plugin_id,
                    out@->Response_result,
                )) =~= enc_message(out@));
                assert forall|v: MessageV|
                    enc_at(s@, i as int, #[trigger] enc_message(v)) implies out@ == v && tail.3
                    as int == i + enc_message(v).len() by {
                    lemma_message_parts(s@, i as int, v);
                }
            }
            return Some((out, tail.3));
        }
        // a request: after the id follow the method members
        proof {
            assert forall|v: MessageV|
                enc_at(s@, i as int, #[trigger] enc_message(v)) implies (v matches
            MessageV::Request { id, method, plugin_id } && id == idp.0 && enc_at(
                s@,
                j2 as int,
                enc_request_tail(method, plugin_id),
            )) by {
                lemma_message_parts(s@, i as int, v);
                if v is Response {
                    let id = v->Response_id;
                    assert(id == idp.0);
                    lemma_response_tail_parts(
                        s@,
                        i + "{\"id\":"@.len() + enc_u64(id as int).len(),
                        v->Response_error,
                        v->Response_plugin_id,
                        v->Response_result,
                    );
                    assert(false);
                }
            }
        }
        let tail = match parse_request_tail(s, j2) {
            Some(p) => p,
            None => {
                proof {
                    assert forall|v: MessageV|
                        !enc_at(s@, i as int, #[trigger] enc_message(v)) by {}
                }
                return None;
            },
        };
        let out = Message::Request { id: idp.0, method: tail.0, plugin_id: tail.1 };
        proof {
            lemma_enc_at_join(
                s@,
                j1 as int,
                enc_u64(idp.0 as int),
                enc_request_tail(out@->Request_method, out@->Request_plugin_id),
            );
            lemma_enc_at_join(
                s@,
                i as int,
                "{\"id\":"@,
                enc_u64(idp.0 as int) + enc_request_tail(
                    out@->Request_method,
                    out@->Request_plugin_id,
                ),
            );
            assert("{\"id\":"@ + (enc_u64(idp.0 as int) + enc_request_tail(
                out@->Request_method,
                out@->Request_plugin_id,
            )) =~= enc_message(out@));
            assert forall|v: MessageV|
                enc_at(s@, i as int, #[trigger] enc_message(v)) implies out@ == v && tail.2
                as int == i + enc_message(v).len() by {
                lemma_message_parts(s@, i as int, v);
            }
        }
        return Some((out, tail.2));
    }
    // a notification: a brace straight onto the method members
    proof {
        assert forall|v: MessageV|
            enc_at(s@, i as int, #[trigger] enc_message(v)) implies v is Notification && i < slen
            && s@[i as int] == '{' && enc_at(s@, i + 1, enc_method_flat(v->Notification_method))
            && enc_at(
            s@,
            i + 1 + enc_method_flat(v->Notification_method).len(),
            seq!['}'],
        ) by {
            lemma_message_parts(s@, i as int, v);
            if v is Request || v is Response {
                assert(enc_at(s@, i as int, "{\"id\":"@));
                assert(false);
            }
            lemma_lit_char(s@, i as int, seq!['{'], 0);
        }
    }
    if i >= slen || s[i] != '{' {
        return None;
    }
    let m = match parse_method_flat(s, i + 1) {
        Some(p) => p,
        None => {
            proof {
                assert forall|v: MessageV| !enc_at(s@, i as int, #[trigger] enc_message(v)) by {}
            }
            return None;
        },
    };
    let j2: usize = m.1;
    if j2 >= slen || s[j2] != '}' {
        proof {
            assert forall|v: MessageV| !enc_at(s@, i as int, #[trigger] enc_message(v)) by {
                if enc_at(s@, i as int, enc_message(v)) {
                    assert(m.0@ == v->Notification_method);
                    lemma_lit_char(
                        s@,
                        i + 1 + enc_method_flat(v->Notification_method).len(),
                        seq!['}'],
                        0,
                    );
                }
            }
        }
        return None;
    }
    let out = Message::Notification { method: m.0 };
    proof {
        assert(s@.subrange(i as int, i + 1) =~= seq!['{']);
        assert(s@.subrange(j2 as int, j2 + 1) =~= seq!['}']);
        lemma_enc_at_join(s@, i + 1, enc_method_flat(out@->Notification_method), seq!['}']);
        lemma_enc_at_join(
            s@,
            i as int,
            seq!['{'],
            enc_method_flat(out@->Notification_method) + seq!['}'],
        );
        assert(seq!['{'] + (enc_method_flat(out@->Notification_method) + seq!['}'])
            =~= enc_message(out@));
        assert forall|v: MessageV|
            enc_at(s@, i as int, #[trigger] enc_message(v)) implies out@ == v && j2 + 1 == i
            + enc_message(v).len() by {
            lemma_message_parts(s@, i as int, v);
            assert(m.0@ == v->Notification_method);
        }
    }
    Some((out, j2 + 1))
}

/// Reads one whole line. Succeeds exactly when the line is the canonical
/// rendering of some message, and returns that message.
pub fn message_from_chars(line: &Vec<char>) -> (r: Option<Message>)
    ensures
        r matches Some(m) ==> line@ == enc_message(m@),
        forall|v: MessageV|
            line@ == #[trigger] enc_message(v) ==> (r matches Some(m) && m@ == v),
{
    proof {
        assert forall|v: MessageV|
            line@ == #[trigger] enc_message(v) implies enc_at(line@, 0, enc_message(v)) by {
            assert(line@.subrange(0, enc_message(v).len() as int) =~= enc_message(v));
        }
    }
    match parse_message(line, 0) {
        Some((m, j)) => {
            if j == line.len() {
                proof {
                    assert(line@.subrange(0, line@.len() as int) =~= line@);
                }
                Some(m)
            } else {
                proof {
                    assert forall|v: MessageV| line@ != #[trigger] enc_message(v) by {
                        if line@ == enc_message(v) {
                            assert(enc_at(line@, 0, enc_message(v)));
                        }
                    }
                }
                None
            }
        },
        None => {
            None
        },
    }
}

/// Reads one whole line given as a string slice.
pub fn message_from_json(line: &str) -> (r: Option<Message>)
    ensures
        r matches Some(m) ==> line@ == enc_message(m@),
        forall|v: MessageV|
            line@ == #[trigger] enc_message(v) ==> (r matches Some(m) && m@ == v),
{
    let chars = str_to_chars(line);
    message_from_chars(&chars)
}

} // verus!
