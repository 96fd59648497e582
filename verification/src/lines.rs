//! Line framing: one message per `\n`-terminated line. A canonical message
//! rendering never contains a newline, so the line structure of a stream is
//! unambiguous; a malformed line is skipped and never disturbs its
//! neighbours.

use vstd::prelude::*;

use crate::codec::{
    enc_action, enc_args, enc_bool, enc_items, enc_match, enc_match_action, enc_match_actions,
    enc_matches, enc_message, enc_metadata_fields, enc_method_flat, enc_opt_result, enc_opt_str,
    enc_param, enc_params, enc_request_tail, enc_response_tail, enc_result, enc_score,
    message_from_chars,
};
use crate::json::{enc_str, enc_u64, esc, is_digit, lemma_enc_u64_shape, lemma_esc_no_newline};
use crate::protocol::{
    ActionV, MatchActionV, MatchV, Message, MessageV, MethodResultV, MethodV,
};

verus! {

/// All characters of `e` stay on one line.
pub open spec fn line_chars(e: Seq<char>) -> bool {
    forall|k: int| 0 <= k < e.len() ==> e[k] != '\n'
}

proof fn lemma_line_concat(a: Seq<char>, b: Seq<char>)
    requires
        line_chars(a),
        line_chars(b),
    ensures
        line_chars(a + b),
{
    assert forall|k: int| 0 <= k < (a + b).len() implies (a + b)[k] != '\n' by {
        if k < a.len() {
            assert((a + b)[k] == a[k]);
        } else {
            assert((a + b)[k] == b[k - a.len()]);
        }
    }
}

proof fn lemma_line_str(v: Seq<char>)
    ensures
        line_chars(enc_str(v)),
{
    lemma_esc_no_newline(v);
    assert forall|k: int| 0 <= k < enc_str(v).len() implies enc_str(v)[k] != '\n' by {
        if k == 0 {
        } else if k < 1 + esc(v).len() {
            assert(enc_str(v)[k] == esc(v)[k - 1]);
        } else {
            assert(enc_str(v)[k] == '}' || enc_str(v)[k] == '"');
        }
    }
}

proof fn lemma_line_u64(n: int)
    requires
        n >= 0,
    ensures
        line_chars(enc_u64(n)),
{
    lemma_enc_u64_shape(n);
    assert forall|k: int| 0 <= k < enc_u64(n).len() implies enc_u64(n)[k] != '\n' by {
        assert(is_digit(enc_u64(n)[k]));
    }
}

proof fn lemma_line_bool(b: bool)
    ensures
        line_chars(enc_bool(b)),
{
    reveal_strlit("true");
    reveal_strlit("false");
}

proof fn lemma_line_opt_str(o: Option<Seq<char>>)
    ensures
        line_chars(enc_opt_str(o)),
{
    reveal_strlit("null");
    if o is Some {
        lemma_line_str(o.unwrap());
    }
}

proof fn lemma_line_score(n: u32)
    ensures
        line_chars(enc_score(n)),
{
    lemma_line_u64(n as int / 1000);
    assert forall|k: int| 0 <= k < enc_score(n).len() implies enc_score(n)[k] != '\n' by {
        let w = enc_u64(n as int / 1000);
        if k < w.len() {
            assert(enc_score(n)[k] == w[k]);
        }
    }
}

proof fn lemma_line_items<T>(l: Seq<T>, f: spec_fn(T) -> Seq<char>)
    requires
        forall|k: int| 0 <= k < l.len() ==> line_chars(#[trigger] f(l[k])),
    ensures
        line_chars(enc_items(l, f)),
    decreases l.len(),
{
    if l.len() == 0 {
    } else if l.len() == 1 {
        assert(line_chars(f(l[0])));
    } else {
        assert forall|k: int| 0 <= k < l.drop_first().len() implies line_chars(
            #[trigger] f(l.drop_first()[k]),
        ) by {
            assert(l.drop_first()[k] == l[k + 1]);
        }
        lemma_line_items(l.drop_first(), f);
        lemma_line_concat(f(l[0]), seq![',']);
        lemma_line_concat(f(l[0]) + seq![','], enc_items(l.drop_first(), f));
    }
}

proof fn lemma_line_params(ps: Seq<(Seq<char>, Seq<char>)>)
    ensures
        line_chars(enc_params(ps)),
{
    let f = |p: (Seq<char>, Seq<char>)| enc_param(p);
    assert forall|k: int| 0 <= k < ps.len() implies line_chars(#[trigger] f(ps[k])) by {
        lemma_line_str(ps[k].0);
        lemma_line_str(ps[k].1);
        lemma_line_concat(enc_str(ps[k].0), seq![':']);
        lemma_line_concat(enc_str(ps[k].0) + seq![':'], enc_str(ps[k].1));
        assert(enc_str(ps[k].0) + seq![':'] + enc_str(ps[k].1) == f(ps[k]));
    }
    lemma_line_items(ps, f);
    lemma_line_concat(seq!['{'], enc_items(ps, f));
    lemma_line_concat(seq!['{'] + enc_items(ps, f), seq!['}']);
}

proof fn lemma_line_args(l: Seq<Seq<char>>)
    ensures
        line_chars(enc_args(l)),
{
    let f = |s: Seq<char>| enc_str(s);
    assert forall|k: int| 0 <= k < l.len() implies line_chars(#[trigger] f(l[k])) by {
        lemma_line_str(l[k]);
    }
    lemma_line_items(l, f);
    lemma_line_concat(seq!['['], enc_items(l, f));
    lemma_line_concat(seq!['['] + enc_items(l, f), seq![']']);
}

proof fn lemma_line_action(a: ActionV)
    ensures
        line_chars(enc_action(a)),
{
    reveal_strlit("{\"type\":\"exec\",\"command\":");
    reveal_strlit("{\"type\":\"launch\",\"app_id\":");
    reveal_strlit("{\"type\":\"open\",\"uri\":");
    reveal_strlit("{\"type\":\"clipboard\",\"text\":");
    reveal_strlit("{\"type\":\"callback\",\"key\":");
    reveal_strlit(",\"args\":");
    reveal_strlit(",\"new_instance\":");
    reveal_strlit(",\"params\":");
    match a {
        ActionV::Exec { command, args } => {
            lemma_line_str(command);
            lemma_line_args(args);
            lemma_line_concat("{\"type\":\"exec\",\"command\":"@, enc_str(command));
            lemma_line_concat(
                "{\"type\":\"exec\",\"command\":"@ + enc_str(command),
                ",\"args\":"@,
            );
            lemma_line_concat(
                "{\"type\":\"exec\",\"command\":"@ + enc_str(command) + ",\"args\":"@,
                enc_args(args),
            );
            lemma_line_concat(
                "{\"type\":\"exec\",\"command\":"@ + enc_str(command) + ",\"args\":"@ + enc_args(
                    args,
                ),
                seq!['}'],
            );
        },
        ActionV::Launch { app_id, args, new_instance } => {
            lemma_line_str(app_id);
            lemma_line_args(args);
            lemma_line_bool(new_instance);
            let p1 = "{\"type\":\"launch\",\"app_id\":"@ + enc_str(app_id);
            lemma_line_concat("{\"type\":\"launch\",\"app_id\":"@, enc_str(app_id));
            lemma_line_concat(p1, ",\"args\":"@);
            lemma_line_concat(p1 + ",\"args\":"@, enc_args(args));
            lemma_line_concat(p1 + ",\"args\":"@ + enc_args(args), ",\"new_instance\":"@);
            lemma_line_concat(
                p1 + ",\"args\":"@ + enc_args(args) + ",\"new_instance\":"@,
                enc_bool(new_instance),
            );
            lemma_line_concat(
                p1 + ",\"args\":"@ + enc_args(args) + ",\"new_instance\":"@ + enc_bool(
                    new_instance,
                ),
                seq!['}'],
            );
        },
        ActionV::Open { uri } => {
            lemma_line_str(uri);
            lemma_line_concat("{\"type\":\"open\",\"uri\":"@, enc_str(uri));
            lemma_line_concat("{\"type\":\"open\",\"uri\":"@ + enc_str(uri), seq!['}']);
        },
        ActionV::Clipboard { text } => {
            lemma_line_str(text);
            lemma_line_concat("{\"type\":\"clipboard\",\"text\":"@, enc_str(text));
            lemma_line_concat("{\"type\":\"clipboard\",\"text\":"@ + enc_str(text), seq!['}']);
        },
        ActionV::Callback { key, params } => {
            lemma_line_str(key);
            lemma_line_params(params);
            let p1 = "{\"type\":\"callback\",\"key\":"@ + enc_str(key);
            lemma_line_concat("{\"type\":\"callback\",\"key\":"@, enc_str(key));
            lemma_line_concat(p1, ",\"params\":"@);
            lemma_line_concat(p1 + ",\"params\":"@, enc_params(params));
            lemma_line_concat(p1 + ",\"params\":"@ + enc_params(params), seq!['}']);
        },
    }
}

proof fn lemma_line_match_action(ma: MatchActionV)
    ensures
        line_chars(enc_match_action(ma)),
{
    reveal_strlit("{\"title\":");
    reveal_strlit(",\"action\":");
    reveal_strlit(",\"close_on_action\":");
    lemma_line_str(ma.title);
    lemma_line_action(ma.action);
    lemma_line_bool(ma.close_on_action);
    let p1 = "{\"title\":"@ + enc_str(ma.title);
    lemma_line_concat("{\"title\":"@, enc_str(ma.title));
    lemma_line_concat(p1, ",\"action\":"@);
    lemma_line_concat(p1 + ",\"action\":"@, enc_action(ma.action));
    lemma_line_concat(p1 + ",\"action\":"@ + enc_action(ma.action), ",\"close_on_action\":"@);
    lemma_line_concat(
        p1 + ",\"action\":"@ + enc_action(ma.action) + ",\"close_on_action\":"@,
        enc_bool(ma.close_on_action),
    );
    lemma_line_concat(
        p1 + ",\"action\":"@ + enc_action(ma.action) + ",\"close_on_action\":"@ + enc_bool(
            ma.close_on_action,
        ),
        seq!['}'],
    );
}

proof fn lemma_line_match(m: MatchV)
    ensures
        line_chars(enc_match(m)),
{
    reveal_strlit("{\"title\":");
    reveal_strlit(",\"description\":");
    reveal_strlit(",\"icon\":");
    reveal_strlit(",\"actions\":");
    reveal_strlit(",\"score\":");
    lemma_line_str(m.title);
    lemma_line_str(m.description);
    lemma_line_opt_str(m.icon);
    lemma_line_score(m.score);
    let f = |a: MatchActionV| enc_match_action(a);
    assert forall|k: int| 0 <= k < m.actions.len() implies line_chars(
        #[trigger] f(m.actions[k]),
    ) by {
        lemma_line_match_action(m.actions[k]);
    }
    lemma_line_items(m.actions, f);
    lemma_line_concat(seq!['['], enc_items(m.actions, f));
    lemma_line_concat(seq!['['] + enc_items(m.actions, f), seq![']']);
    assert(line_chars(enc_match_actions(m.actions)));
    let p1 = "{\"title\":"@ + enc_str(m.title);
    lemma_line_concat("{\"title\":"@, enc_str(m.title));
    lemma_line_concat(p1, ",\"description\":"@);
    let p2 = p1 + ",\"description\":"@ + enc_str(m.description);
    lemma_line_concat(p1 + ",\"description\":"@, enc_str(m.description));
    lemma_line_concat(p2, ",\"icon\":"@);
    let p3 = p2 + ",\"icon\":"@ + enc_opt_str(m.icon);
    lemma_line_concat(p2 + ",\"icon\":"@, enc_opt_str(m.icon));
    lemma_line_concat(p3, ",\"actions\":"@);
    let p4 = p3 + ",\"actions\":"@ + enc_match_actions(m.actions);
    lemma_line_concat(p3 + ",\"actions\":"@, enc_match_actions(m.actions));
    lemma_line_concat(p4, ",\"score\":"@);
    lemma_line_concat(p4 + ",\"score\":"@, enc_score(m.score));
    lemma_line_concat(p4 + ",\"score\":"@ + enc_score(m.score), seq!['}']);
}

proof fn lemma_line_result(r: MethodResultV)
    ensures
        line_chars(enc_result(r)),
{
    reveal_strlit("{\"type\":\"authenticate\",\"id\":");
    reveal_strlit("{\"type\":\"matches\",\"items\":");
    reveal_strlit("{\"type\":\"error\",\"message\":");
    reveal_strlit("{\"type\":\"none\"}");
    reveal_strlit(",\"name\":");
    reveal_strlit(",\"version\":");
    reveal_strlit(",\"description\":");
    reveal_strlit(",\"author\":");
    match r {
        MethodResultV::Authenticate(md) => {
            lemma_line_str(md.id);
            lemma_line_str(md.name);
            lemma_line_str(md.version);
            lemma_line_str(md.description);
            lemma_line_str(md.author);
            let p1 = enc_str(md.id) + ",\"name\":"@;
            lemma_line_concat(enc_str(md.id), ",\"name\":"@);
            let p2 = p1 + enc_str(md.name) + ",\"version\":"@;
            lemma_line_concat(p1, enc_str(md.name));
            lemma_line_concat(p1 + enc_str(md.name), ",\"version\":"@);
            let p3 = p2 + enc_str(md.version) + ",\"description\":"@;
            lemma_line_concat(p2, enc_str(md.version));
            lemma_line_concat(p2 + enc_str(md.version), ",\"description\":"@);
            let p4 = p3 + enc_str(md.description) + ",\"author\":"@;
            lemma_line_concat(p3, enc_str(md.description));
            lemma_line_concat(p3 + enc_str(md.description), ",\"author\":"@);
            lemma_line_concat(p4, enc_str(md.author));
            assert(line_chars(enc_metadata_fields(md))) by {
                assert(p4 + enc_str(md.author) =~= enc_metadata_fields(md));
            }
            lemma_line_concat("{\"type\":\"authenticate\",\"id\":"@, enc_metadata_fields(md));
            lemma_line_concat(
                "{\"type\":\"authenticate\",\"id\":"@ + enc_metadata_fields(md),
                seq!['}'],
            );
        },
        MethodResultV::Matches(items) => {
            let f = |m: MatchV| enc_match(m);
            assert forall|k: int| 0 <= k < items.len() implies line_chars(
                #[trigger] f(items[k]),
            ) by {
                lemma_line_match(items[k]);
            }
            lemma_line_items(items, f);
            lemma_line_concat(seq!['['], enc_items(items, f));
            lemma_line_concat(seq!['['] + enc_items(items, f), seq![']']);
            assert(line_chars(enc_matches(items)));
            lemma_line_concat("{\"type\":\"matches\",\"items\":"@, enc_matches(items));
            lemma_line_concat(
                "{\"type\":\"matches\",\"items\":"@ + enc_matches(items),
                seq!['}'],
            );
        },
        MethodResultV::Error(e) => {
            lemma_line_str(e);
            lemma_line_concat("{\"type\":\"error\",\"message\":"@, enc_str(e));
            lemma_line_concat("{\"type\":\"error\",\"message\":"@ + enc_str(e), seq!['}']);
        },
        MethodResultV::NoResult => {},
    }
}

proof fn lemma_line_method(m: MethodV)
    ensures
        line_chars(enc_method_flat(m)),
{
    reveal_strlit("\"method\":\"search\",\"params\":");
    reveal_strlit("\"method\":\"activate\",\"params\":[");
    reveal_strlit("\"method\":\"call_action\",\"params\":[");
    reveal_strlit("\"method\":\"cancel\"");
    reveal_strlit("\"method\":\"quit\"");
    match m {
        MethodV::Search(q) => {
            lemma_line_str(q);
            lemma_line_concat("\"method\":\"search\",\"params\":"@, enc_str(q));
        },
        MethodV::Activate(mi, ai) => {
            lemma_line_u64(mi as int);
            lemma_line_u64(ai as int);
            let p1 = "\"method\":\"activate\",\"params\":["@ + enc_u64(mi as int);
            lemma_line_concat("\"method\":\"activate\",\"params\":["@, enc_u64(mi as int));
            lemma_line_concat(p1, seq![',']);
            lemma_line_concat(p1 + seq![','], enc_u64(ai as int));
            lemma_line_concat(p1 + seq![','] + enc_u64(ai as int), seq![']']);
        },
        MethodV::CallAction(k, ps) => {
            lemma_line_str(k);
            lemma_line_params(ps);
            let p1 = "\"method\":\"call_action\",\"params\":["@ + enc_str(k);
            lemma_line_concat("\"method\":\"call_action\",\"params\":["@, enc_str(k));
            lemma_line_concat(p1, seq![',']);
            lemma_line_concat(p1 + seq![','], enc_params(ps));
            lemma_line_concat(p1 + seq![','] + enc_params(ps), seq![']']);
        },
        MethodV::Cancel => {},
        MethodV::Quit => {},
    }
}

/// A canonical message line never contains a newline: one message, one line.
pub proof fn lemma_message_one_line(v: MessageV)
    ensures
        line_chars(enc_message(v)),
        enc_message(v).len() >= 1,
{
    reveal_strlit("{\"id\":");
    reveal_strlit(",\"error\":");
    reveal_strlit(",\"plugin_id\":");
    reveal_strlit(",\"result\":");
    match v {
        MessageV::Request { id, method, plugin_id } => {
            lemma_line_u64(id as int);
            lemma_line_method(method);
            lemma_line_opt_str(plugin_id);
            let t1 = seq![','] + enc_method_flat(method);
            lemma_line_concat(seq![','], enc_method_flat(method));
            lemma_line_concat(t1, ",\"plugin_id\":"@);
            lemma_line_concat(t1 + ",\"plugin_id\":"@, enc_opt_str(plugin_id));
            lemma_line_concat(t1 + ",\"plugin_id\":"@ + enc_opt_str(plugin_id), seq!['}']);
            assert(line_chars(enc_request_tail(method, plugin_id)));
            lemma_line_concat("{\"id\":"@, enc_u64(id as int));
            lemma_line_concat(
                "{\"id\":"@ + enc_u64(id as int),
                enc_request_tail(method, plugin_id),
            );
        },
        MessageV::Response { id, error, result, plugin_id } => {
            lemma_line_u64(id as int);
            lemma_line_opt_str(error);
            lemma_line_opt_str(plugin_id);
            reveal_strlit("null");
            if result is Some {
                lemma_line_result(result.unwrap());
            }
            assert(line_chars(enc_opt_result(result)));
            let t1 = ",\"error\":"@ + enc_opt_str(error);
            lemma_line_concat(",\"error\":"@, enc_opt_str(error));
            lemma_line_concat(t1, ",\"plugin_id\":"@);
            let t2 = t1 + ",\"plugin_id\":"@ + enc_opt_str(plugin_id);
            lemma_line_concat(t1 + ",\"plugin_id\":"@, enc_opt_str(plugin_id));
            lemma_line_concat(t2, ",\"result\":"@);
            lemma_line_concat(t2 + ",\"result\":"@, enc_opt_result(result));
            lemma_line_concat(t2 + ",\"result\":"@ + enc_opt_result(result), seq!['}']);
            assert(line_chars(enc_response_tail(error, plugin_id, result)));
            lemma_line_concat("{\"id\":"@, enc_u64(id as int));
            lemma_line_concat(
                "{\"id\":"@ + enc_u64(id as int),
                enc_response_tail(error, plugin_id, result),
            );
        },
        MessageV::Notification { method } => {
            lemma_line_method(method);
            lemma_line_concat(seq!['{'], enc_method_flat(method));
            lemma_line_concat(seq!['{'] + enc_method_flat(method), seq!['}']);
        },
    }
}

// ===== splitting a stream into lines =====

/// Position of the first newline, or the length when there is none.
pub open spec fn first_nl(input: Seq<char>) -> int
    decreases input.len(),
{
    if input.len() == 0 {
        0
    } else if input[0] == '\n' {
        0
    } else {
        1 + first_nl(input.drop_first())
    }
}

pub proof fn lemma_first_nl_at(input: Seq<char>, k: int)
    requires
        0 <= k <= input.len(),
        forall|t: int| 0 <= t < k ==> input[t] != '\n',
        k < input.len() ==> input[k] == '\n',
    ensures
        first_nl(input) == k,
    decreases k,
{
    if k == 0 {
    } else {
        assert(input[0] != '\n');
        assert forall|t: int| 0 <= t < k - 1 implies input.drop_first()[t] != '\n' by {
            assert(input.drop_first()[t] == input[t + 1]);
        }
        if k - 1 < input.drop_first().len() {
            assert(input.drop_first()[k - 1] == input[k]);
        }
        lemma_first_nl_at(input.drop_first(), k - 1);
    }
}

/// The segments of a stream, split at each newline; the final segment is
/// what follows the last newline, when it is not empty.
pub open spec fn split_lines(input: Seq<char>) -> Seq<Seq<char>>
    decreases input.len(),
{
    if input.len() == 0 {
        Seq::empty()
    } else {
        let k = first_nl(input);
        if k < 0 || k >= input.len() {
            seq![input]
        } else {
            seq![input.take(k)] + split_lines(input.skip(k + 1))
        }
    }
}

/// Whether some message renders exactly as this line.
pub open spec fn decodes(line: Seq<char>) -> bool {
    exists|m: MessageV| line == enc_message(m)
}

/// The lines that carry a message, in stream order.
pub open spec fn decodable_lines(ls: Seq<Seq<char>>) -> Seq<Seq<char>>
    decreases ls.len(),
{
    if ls.len() == 0 {
        Seq::empty()
    } else {
        (if decodes(ls[0]) {
            seq![ls[0]]
        } else {
            Seq::<Seq<char>>::empty()
        }) + decodable_lines(ls.drop_first())
    }
}

/// The wire lines of the messages that a stream yields.
pub open spec fn stream_lines(input: Seq<char>) -> Seq<Seq<char>> {
    decodable_lines(split_lines(input))
}

/// Splits a stream at newlines and reads each segment, skipping the
/// segments that carry no message. The result holds, in order, exactly one
/// message per decodable line of the stream.
pub fn parse_lines(input: &Vec<char>) -> (r: Vec<Message>)
    ensures
        r.deep_view().len() == stream_lines(input@).len(),
        forall|k: int|
            0 <= k < r.deep_view().len() ==> enc_message(#[trigger] r.deep_view()[k])
                == stream_lines(input@)[k],
        forall|k: int, m: MessageV|
            0 <= k < r.deep_view().len() && stream_lines(input@)[k] == enc_message(m)
                ==> r.deep_view()[k] == m,
{
    let n: usize = input.len();
    let mut out: Vec<Message> = Vec::new();
    let mut start: usize = 0;
    proof {
        assert(out.deep_view() =~= Seq::<MessageV>::empty());
        assert(input@.skip(0) =~= input@);
    }
    while start < n
        invariant
            start <= n,
            n == input@.len(),
            stream_lines(input@) == out.deep_view().map_values(|m: MessageV| enc_message(m))
                + stream_lines(input@.skip(start as int)),
            forall|k: int|
                0 <= k < out.deep_view().len() ==> enc_message(#[trigger] out.deep_view()[k])
                    == stream_lines(input@)[k],
            forall|k: int, m: MessageV|
                #![trigger out.deep_view()[k], enc_message(m)]
                0 <= k < out.deep_view().len() && enc_message(out.deep_view()[k]) == enc_message(
                    m,
                ) ==> out.deep_view()[k] == m,
        decreases n - start,
    {
        let ghost rest = input@.skip(start as int);
        // scan to the end of the current line
        let mut e: usize = start;
        while e < n && input[e] != '\n'
            invariant
                start <= e <= n,
                n == input@.len(),
                forall|t: int| start <= t < e ==> input@[t] != '\n',
            decreases n - e,
        {
            e = e + 1;
        }
        // copy the line out
        let mut line: Vec<char> = Vec::new();
        let mut t: usize = start;
        proof {
            assert(line@ =~= input@.subrange(start as int, start as int));
        }
        while t < e
            invariant
                start <= t <= e <= n,
                n == input@.len(),
                line@ == input@.subrange(start as int, t as int),
            decreases e - t,
        {
            line.push(input[t]);
            t = t + 1;
            proof {
                assert(line@ =~= input@.subrange(start as int, t as int));
            }
        }
        let msg = message_from_chars(&line);
        let ghost pre_out = out.deep_view();
        let ghost gmsg = msg;
        match msg {
            Some(m) => {
                out.push(m);
            },
            None => {},
        }
        proof {
            let k = e - start;
            assert forall|u: int| 0 <= u < k implies rest[u] != '\n' by {
                assert(rest[u] == input@[start + u]);
            }
            if k < rest.len() {
                assert(rest[k as int] == input@[e as int]);
            }
            lemma_first_nl_at(rest, k as int);
            assert(line@ =~= rest.take(k as int));
            let tail_ls = if (e as int) < n as int {
                split_lines(input@.skip(e + 1))
            } else {
                Seq::<Seq<char>>::empty()
            };
            if (e as int) < n as int {
                assert(rest.skip(k + 1) =~= input@.skip(e + 1));
                assert(split_lines(rest) == seq![line@] + split_lines(input@.skip(e + 1)));
            } else {
                assert(rest.take(k as int) =~= rest);
                assert(split_lines(rest) == seq![rest]);
                assert(seq![line@] + tail_ls =~= split_lines(rest));
            }
            assert(split_lines(rest) == seq![line@] + tail_ls);
            assert((seq![line@] + tail_ls)[0] == line@);
            assert((seq![line@] + tail_ls).drop_first() =~= tail_ls);
            // the head line contributes its message, or nothing
            match gmsg {
                Some(m) => {
                    assert(decodes(line@));
                    assert(decodable_lines(split_lines(rest)) == seq![line@] + decodable_lines(
                        tail_ls,
                    ));
                    assert(out.deep_view() =~= pre_out.push(m@));
                    assert(out.deep_view().map_values(|mm: MessageV| enc_message(mm))
                        =~= pre_out.map_values(|mm: MessageV| enc_message(mm)) + seq![
                        enc_message(m@),
                    ]);
                    assert(stream_lines(input@) =~= out.deep_view().map_values(
                        |mm: MessageV| enc_message(mm),
                    ) + decodable_lines(tail_ls));
                    assert forall|kk: int, mm: MessageV|
                        #![trigger out.deep_view()[kk], enc_message(mm)]
                        0 <= kk < out.deep_view().len() && enc_message(out.deep_view()[kk])
                            == enc_message(mm) implies out.deep_view()[kk] == mm by {
                        if kk < pre_out.len() {
                            assert(out.deep_view()[kk] == pre_out[kk]);
                        } else {
                            assert(out.deep_view()[kk] == m@);
                            assert(line@ == enc_message(m@));
                            assert(line@ == enc_message(mm));
                        }
                    }
                    assert forall|kk: int|
                        0 <= kk < out.deep_view().len() implies enc_message(
                        #[trigger] out.deep_view()[kk],
                    ) == stream_lines(input@)[kk] by {
                        if kk < pre_out.len() {
                            assert(out.deep_view()[kk] == pre_out[kk]);
                        } else {
                            assert(out.deep_view()[kk] == m@);
                            assert(stream_lines(input@)[kk] == enc_message(m@));
                        }
                    }
                },
                None => {
                    assert(!decodes(line@)) by {
                        if decodes(line@) {
                            let mm = choose|mm: MessageV| line@ == enc_message(mm);
                            assert(line@ == enc_message(mm));
                            assert(false);
                        }
                    }
                    assert(decodable_lines(split_lines(rest)) =~= decodable_lines(tail_ls));
                    assert(stream_lines(input@) =~= out.deep_view().map_values(
                        |mm: MessageV| enc_message(mm),
                    ) + decodable_lines(tail_ls));
                },
            }
            if (e as int) < n as int {
            } else {
                assert(input@.skip(n as int) =~= Seq::<char>::empty());
            }
        }
        if e < n {
            start = e + 1;
        } else {
            start = n;
        }
        proof {
            if start == n {
                assert(input@.skip(n as int) =~= Seq::<char>::empty());
                assert(stream_lines(input@.skip(n as int)) =~= Seq::<Seq<char>>::empty());
            }
            assert(stream_lines(input@) =~= out.deep_view().map_values(
                |m: MessageV| enc_message(m),
            ) + stream_lines(input@.skip(start as int)));
        }
    }
    proof {
        assert(input@.skip(n as int) =~= Seq::<char>::empty());
        assert(stream_lines(input@.skip(start as int)) =~= Seq::<Seq<char>>::empty());
        assert forall|k: int| 0 <= k < out.deep_view().len() implies enc_message(
            #[trigger] out.deep_view()[k],
        ) == stream_lines(input@)[k] by {}
        assert(out.deep_view().map_values(|m: MessageV| enc_message(m)).len()
            == out.deep_view().len());
        assert(stream_lines(input@) =~= out.deep_view().map_values(
            |m: MessageV| enc_message(m),
        ));
    }
    out
}

/// A stream that interleaves one malformed line between two message lines
/// yields exactly those two messages, in order: the bad line is skipped and
/// its neighbours are untouched.
pub proof fn lemma_line_skip_resilience(m1: MessageV, bad: Seq<char>, m2: MessageV)
    requires
        !decodes(bad),
        line_chars(bad),
    ensures
        stream_lines(enc_message(m1) + seq!['\n'] + bad + seq!['\n'] + enc_message(m2)) =~= seq![
            enc_message(m1),
            enc_message(m2),
        ],
{
    let e1 = enc_message(m1);
    let e2 = enc_message(m2);
    let input = e1 + seq!['\n'] + bad + seq!['\n'] + e2;
    lemma_message_one_line(m1);
    lemma_message_one_line(m2);
    // the first line is exactly the first message
    assert forall|t: int| 0 <= t < e1.len() implies input[t] != '\n' by {
        assert(input[t] == e1[t]);
    }
    assert(input[e1.len() as int] == '\n');
    lemma_first_nl_at(input, e1.len() as int);
    assert(input.take(e1.len() as int) =~= e1);
    let rest1 = input.skip(e1.len() as int + 1);
    assert(rest1 =~= bad + seq!['\n'] + e2);
    assert(split_lines(input) == seq![e1] + split_lines(rest1));
    // the second line is the malformed one
    assert forall|t: int| 0 <= t < bad.len() implies rest1[t] != '\n' by {
        assert(rest1[t] == bad[t]);
    }
    assert(rest1[bad.len() as int] == '\n');
    lemma_first_nl_at(rest1, bad.len() as int);
    assert(rest1.take(bad.len() as int) =~= bad);
    let rest2 = rest1.skip(bad.len() as int + 1);
    assert(rest2 =~= e2);
    assert(split_lines(rest1) == seq![bad] + split_lines(rest2));
    // the third line is the second message, with no newline after it
    assert forall|t: int| 0 <= t < e2.len() implies rest2[t] != '\n' by {}
    lemma_first_nl_at(rest2, e2.len() as int);
    assert(split_lines(rest2) == seq![e2]);
    assert(split_lines(input) =~= seq![e1, bad, e2]);
    // only the two message lines decode
    assert(decodes(e1)) by {
        assert(e1 == enc_message(m1));
    }
    assert(decodes(e2)) by {
        assert(e2 == enc_message(m2));
    }
    let ls = seq![e1, bad, e2];
    assert(ls[0] == e1);
    assert(ls.drop_first() =~= seq![bad, e2]);
    assert(seq![bad, e2][0] == bad);
    assert(seq![bad, e2].drop_first() =~= seq![e2]);
    assert(seq![e2][0] == e2);
    assert(seq![e2].drop_first() =~= Seq::<Seq<char>>::empty());
    assert(decodable_lines(Seq::<Seq<char>>::empty()) == Seq::<Seq<char>>::empty());
    assert(decodable_lines(seq![e2]) == seq![e2] + Seq::<Seq<char>>::empty());
    assert(decodable_lines(seq![bad, e2]) == Seq::<Seq<char>>::empty() + decodable_lines(
        seq![e2],
    ));
    assert(decodable_lines(ls) == seq![e1] + decodable_lines(seq![bad, e2]));
    assert(decodable_lines(ls) =~= seq![e1, e2]);
}

} // verus!
