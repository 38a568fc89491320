//! DNS queries over UDP: names that a rule picks are answered with the address
//! of the listener, all others go on to a resolver.
use crate::bytes::be16;
use crate::bytes::be_bytes;
use crate::bytes::be_value;
use crate::bytes::lemma_be_value;
use crate::bytes::lemma_pow256;
use crate::bytes::push_be_bytes;
use crate::bytes::push_bytes;
use crate::bytes::read_be16;
use crate::config::Config;
use crate::domain::DomainRules;
use crate::domain::rule_matches;
use crate::domain::RuleKind;
use crate::domain::RulesView;
use crate::domain::suffix_match;
use crate::net::IpAddr;
use crate::text::law_capitals_become_small;
use crate::text::lower;
use crate::text::lower_char_of;
use vstd::prelude::*;
use vstd::slice::slice_subrange;

verus! {

/// What to do with a packet.
#[derive(Debug)]
pub enum DnsAction {
    /// Nothing: it is no query that can be read.
    Drop,
    /// Send these bytes back.
    Reply(Vec<u8>),
    /// Ask the resolver and pass its reply on.
    Forward,
}

/// The mathematical view of [`DnsAction`].
pub enum DnsOutcome {
    Drop,
    Reply(Seq<u8>),
    Forward,
}

impl View for DnsAction {
    type V = DnsOutcome;

    open spec fn view(&self) -> DnsOutcome {
        match self {
            DnsAction::Drop => DnsOutcome::Drop,
            DnsAction::Reply(bytes) => DnsOutcome::Reply(bytes@),
            DnsAction::Forward => DnsOutcome::Forward,
        }
    }
}

// --- The question ---

/// The labels of the name that starts at `at`, and where the name ends.
pub open spec fn labels(b: Seq<u8>, at: int) -> Option<(Seq<Seq<u8>>, int)>
    decreases b.len() - at,
{
    let next = at + 1 + b[at];
    if at >= b.len() {
        None
    } else if b[at] == 0 {
        Some((Seq::empty(), at + 1))
    } else if next > b.len() {
        None
    } else {
        match labels(b, next) {
            Some((rest, end)) => Some((seq![b.subrange(at + 1, next)] + rest, end)),
            None => None,
        }
    }
}

/// The text of a label: a character for each byte, in small letters.
pub open spec fn label_text(label: Seq<u8>) -> Seq<char> {
    lower(label.map_values(|byte: u8| byte as char))
}

/// The name that some labels spell, with dots between them.
pub open spec fn name_of(labels: Seq<Seq<u8>>) -> Seq<char>
    decreases labels.len(),
{
    if labels.len() == 0 {
        Seq::empty()
    } else if labels.len() == 1 {
        label_text(labels[0])
    } else {
        name_of(labels.drop_last()).push('.') + label_text(labels.last())
    }
}

// --- The answer ---

/// Whether a query of type `qtype` asks for an address of the listener's family.
pub open spec fn asks_for_family(qtype: int, ip: IpAddr) -> bool {
    match ip {
        IpAddr::V4(_) => qtype == 1,
        IpAddr::V6(_) => qtype == 28,
    }
}

/// The header of a reply without error to the query `b`: the query's number, one
/// question, one answer or none.
pub open spec fn response_header(b: Seq<u8>, has_answer: bool) -> Seq<u8> {
    b.take(2) + seq![
        0x81u8,
        0x80u8,
        0x00u8,
        0x01u8,
        0x00u8,
        if has_answer { 0x01u8 } else { 0x00u8 },
        0x00u8,
        0x00u8,
        0x00u8,
        0x00u8,
    ]
}

/// The answer `ip` for the name in the question: valid for a minute.
pub open spec fn answer(ip: IpAddr) -> Seq<u8> {
    match ip {
        IpAddr::V4(n) => seq![
            0xc0u8,
            0x0cu8,
            0x00u8,
            0x01u8,
            0x00u8,
            0x01u8,
            0x00u8,
            0x00u8,
            0x00u8,
            0x3cu8,
            0x00u8,
            0x04u8,
        ] + be_bytes(n as nat, 4),
        IpAddr::V6(n) => seq![
            0xc0u8,
            0x0cu8,
            0x00u8,
            0x1cu8,
            0x00u8,
            0x01u8,
            0x00u8,
            0x00u8,
            0x00u8,
            0x3cu8,
            0x00u8,
            0x10u8,
        ] + be_bytes(n as nat, 16),
    }
}

/// The reply to the query `b`, whose name ends at `end`, for a name that a rule
/// picks: the listener's address if the query asks for its family, else no
/// answer. Either way there is no error, so that a client that asks for both
/// families does not give up on the name.
pub open spec fn hijack_reply(b: Seq<u8>, end: int, ip: IpAddr) -> Seq<u8> {
    let has_answer = asks_for_family(be16(b, end), ip);
    response_header(b, has_answer) + b.subrange(12, end + 4) + if has_answer {
        answer(ip)
    } else {
        Seq::empty()
    }
}

/// What to do with the packet `b` that came to the listener at `ip`.
pub open spec fn dns_outcome(b: Seq<u8>, ip: IpAddr, rules: RulesView) -> DnsOutcome {
    if b.len() < 12 {
        DnsOutcome::Drop
    } else if be16(b, 4) == 0 {
        DnsOutcome::Reply(b)
    } else {
        match labels(b, 12) {
            None => DnsOutcome::Drop,
            Some((labels, end)) => if end + 4 > b.len() {
                DnsOutcome::Drop
            } else if rules.matches(name_of(labels)) {
                DnsOutcome::Reply(hijack_reply(b, end, ip))
            } else {
                DnsOutcome::Forward
            },
        }
    }
}

/// Whether a query of type `qtype` asks for an address of the listener's family.
pub fn dns_query_type_matches_listen_ip(qtype: u16, listen_ip: IpAddr) -> (m: bool)
    ensures
        m == asks_for_family(qtype as int, listen_ip),
{
    match listen_ip {
        IpAddr::V4(_) => qtype == 1,
        IpAddr::V6(_) => qtype == 28,
    }
}

/// The header of a reply without error to `query`, with one answer or none.
pub fn build_dns_response_header(query: &[u8], has_answer: bool) -> (resp: Vec<u8>)
    requires
        query@.len() >= 2,
    ensures
        resp@ == response_header(query@, has_answer),
{
    let answers: u8 = if has_answer {
        1
    } else {
        0
    };
    let resp: Vec<u8> = vec![query[0], query[1], 0x81, 0x80, 0x00, 0x01, 0x00, answers, 0x00, 0x00, 0x00, 0x00];
    assert(resp@ == response_header(query@, has_answer));
    resp
}

fn push_answer(resp: &mut Vec<u8>, ip: IpAddr)
    ensures
        final(resp)@ == old(resp)@ + answer(ip),
{
    let ghost before = resp@;
    match ip {
        IpAddr::V4(n) => {
            let head: [u8; 12] = [0xc0, 0x0c, 0x00, 0x01, 0x00, 0x01, 0x00, 0x00, 0x00, 0x3c, 0x00, 0x04];
            push_bytes(resp, head.as_slice());
            push_be_bytes(resp, n as u128, 4);
        },
        IpAddr::V6(n) => {
            let head: [u8; 12] = [0xc0, 0x0c, 0x00, 0x1c, 0x00, 0x01, 0x00, 0x00, 0x00, 0x3c, 0x00, 0x10];
            push_bytes(resp, head.as_slice());
            push_be_bytes(resp, n, 16);
        },
    }
    assert(resp@ == before + answer(ip));
}

/// The name that starts at `at`, and where it ends.
fn read_name(b: &[u8], at: usize) -> (r: Option<(String, usize)>)
    requires
        at <= b@.len(),
    ensures
        match r {
            Some((name, end)) => labels(b@, at as int) matches Some((ls, e)) && e == end
                && name@ == name_of(ls) && at < end <= b@.len(),
            None => labels(b@, at as int) is None,
        },
{
    let mut i = at;
    let mut name = String::new();
    let mut first = true;
    let ghost mut done: Seq<Seq<u8>> = Seq::empty();
    while i < b.len()
        invariant
            at <= i <= b@.len(),
            name@ == name_of(done),
            first == (done.len() == 0),
            match labels(b@, i as int) {
                Some((rest, end)) => labels(b@, at as int) == Some((done + rest, end)),
                None => labels(b@, at as int) is None,
            },
        decreases b@.len() - i,
    {
        let len = b[i] as usize;
        if len == 0 {
            assert(done + Seq::<Seq<u8>>::empty() == done);
            return Some((name, i + 1));
        }
        let start = i + 1;
        if len > b.len() - start {
            return None;
        }
        if !first {
            name.push('.');
        }
        let label = slice_subrange(b, start, start + len);
        let ghost before = name@;
        for j in 0..label.len()
            invariant
                name@ == before + label_text(label@).take(j as int),
        {
            name.push(lower_char_of(label[j] as char));
        }
        proof {
            let more = done.push(label@);
            assert(label_text(label@).take(label@.len() as int) == label_text(label@));
            assert(more.drop_last() == done);
            if done.len() == 0 {
                assert(before + label_text(label@) == label_text(label@));
            }
            assert(name@ == name_of(more));
            if let Some((rest, end)) = labels(b@, start + len) {
                assert(done + (seq![label@] + rest) == more + rest);
            }
            done = more;
        }
        first = false;
        i = start + len;
    }
    None
}

/// What to do with the packet that came to the listener at `listen_ip`.
pub fn dns_action(packet: &[u8], listen_ip: IpAddr, rules: &DomainRules) -> (action: DnsAction)
    ensures
        action@ == dns_outcome(packet@, listen_ip, rules@),
{
    if packet.len() < 12 {
        return DnsAction::Drop;
    }
    if read_be16(packet, 4) == 0 {
        let mut echo: Vec<u8> = Vec::new();
        push_bytes(&mut echo, packet);
        return DnsAction::Reply(echo);
    }
    let (name, end) = match read_name(packet, 12) {
        Some((name, end)) => (name, end),
        None => return DnsAction::Drop,
    };
    if packet.len() - end < 4 {
        return DnsAction::Drop;
    }
    if !rules.is_normalized_match(name.as_str()) {
        return DnsAction::Forward;
    }
    let qtype: u16 = read_be16(packet, end) as u16;
    let has_answer = dns_query_type_matches_listen_ip(qtype, listen_ip);
    let mut resp = build_dns_response_header(packet, has_answer);
    push_bytes(&mut resp, slice_subrange(packet, 12, end + 4));
    if has_answer {
        push_answer(&mut resp, listen_ip);
    }
    assert(resp@ == hijack_reply(packet@, end as int, listen_ip));
    DnsAction::Reply(resp)
}

/// What to do with the packet that came from `src` to the listener at
/// `listen_ip`: nothing where `config` keeps the sender out.
pub fn datagram_action(src: IpAddr, packet: &[u8], listen_ip: IpAddr, config: &Config) -> (action:
    DnsAction)
    ensures
        action@ == if config@.admits(src) {
            dns_outcome(packet@, listen_ip, config@.rules)
        } else {
            DnsOutcome::Drop
        },
{
    if config.allows(src) {
        dns_action(packet, listen_ip, &config.domain_rules)
    } else {
        DnsAction::Drop
    }
}

// --- Laws ---

/// How a query writes the labels of a name.
pub open spec fn name_bytes(ls: Seq<Seq<u8>>) -> Seq<u8>
    decreases ls.len(),
{
    if ls.len() == 0 {
        seq![0u8]
    } else {
        seq![ls[0].len() as u8] + ls[0] + name_bytes(ls.skip(1))
    }
}

/// Whether every label has a length that fits its length byte and is not the
/// end mark.
pub open spec fn valid_labels(ls: Seq<Seq<u8>>) -> bool {
    forall|i: int| 0 <= i < ls.len() ==> 0 < (#[trigger] ls[i]).len() <= 0xff
}

/// A name is read as the labels that were written.
pub proof fn law_name_is_read(before: Seq<u8>, ls: Seq<Seq<u8>>, after: Seq<u8>)
    requires
        valid_labels(ls),
    ensures
        labels(before + name_bytes(ls) + after, before.len() as int) == Some(
            (ls, (before.len() + name_bytes(ls).len()) as int),
        ),
    decreases ls.len(),
{
    let b = before + name_bytes(ls) + after;
    let at = before.len() as int;
    if ls.len() > 0 {
        let rest = ls.skip(1);
        let front = before + (seq![ls[0].len() as u8] + ls[0]);
        assert(0 < ls[0].len() <= 0xff);
        assert(b == front + name_bytes(rest) + after);
        assert(valid_labels(rest)) by {
            assert forall|i: int| 0 <= i < rest.len() implies 0 < (#[trigger] rest[i]).len()
                <= 0xff by {
                assert(rest[i] == ls[i + 1]);
            }
        }
        law_name_is_read(front, rest, after);
        assert(b[at] == ls[0].len());
        assert(b.subrange(at + 1, at + 1 + ls[0].len()) == ls[0]);
        assert(seq![ls[0]] + rest == ls);
    } else {
        assert(b[at] == 0);
        assert(ls == Seq::<Seq<u8>>::empty());
    }
}

/// A query: a header, a name, its type and class and whatever stands behind.
pub open spec fn query(head: Seq<u8>, ls: Seq<Seq<u8>>, tail: Seq<u8>) -> Seq<u8> {
    head + name_bytes(ls) + tail
}

/// Whether the parts make a query with a question.
pub open spec fn query_parts(head: Seq<u8>, ls: Seq<Seq<u8>>, tail: Seq<u8>) -> bool {
    &&& head.len() == 12
    &&& be16(head, 4) != 0
    &&& valid_labels(ls)
    &&& tail.len() >= 4
}

/// A query for a name that a rule picks is answered here, any other query goes
/// on to the resolver.
pub proof fn law_rules_decide_who_answers(
    head: Seq<u8>,
    ls: Seq<Seq<u8>>,
    tail: Seq<u8>,
    ip: IpAddr,
    rules: RulesView,
)
    requires
        query_parts(head, ls, tail),
    ensures
        dns_outcome(query(head, ls, tail), ip, rules) == if rules.matches(name_of(ls)) {
            DnsOutcome::Reply(
                hijack_reply(query(head, ls, tail), (12 + name_bytes(ls).len()) as int, ip),
            )
        } else {
            DnsOutcome::Forward
        },
{
    let b = query(head, ls, tail);
    law_name_is_read(head, ls, tail);
    assert(b[4] == head[4] && b[5] == head[5]);
}

/// A reply for a picked name carries the number of the query, reports no error,
/// repeats the question and holds one answer, the listener's address for a minute,
/// if the query asks for its family, and no answer if it asks for anything else.
pub proof fn law_hijack_reply(
    head: Seq<u8>,
    ls: Seq<Seq<u8>>,
    tail: Seq<u8>,
    ip: IpAddr,
)
    requires
        query_parts(head, ls, tail),
    ensures
        ({
            let b = query(head, ls, tail);
            let end = (12 + name_bytes(ls).len()) as int;
            let r = hijack_reply(b, end, ip);
            let has_answer = tail[0] == 0 && tail[1] == if ip is V4 {
                1int
            } else {
                28int
            };
            &&& r.take(2) == head.take(2)
            &&& r[2] == 0x81 && r[3] == 0x80
            &&& be16(r, 4) == 1
            &&& be16(r, 6) == if has_answer { 1int } else { 0int }
            &&& be16(r, 8) == 0 && be16(r, 10) == 0
            &&& labels(r, 12) == Some((ls, end))
            &&& r.subrange(end, end + 4) == tail.take(4)
            &&& !has_answer ==> r.len() == end + 4
            &&& has_answer ==> {
                &&& be16(r, end + 4) == 0xc00c
                &&& be16(r, end + 8) == 1
                &&& be16(r, end + 10) == 0 && be16(r, end + 12) == 60
                &&& match ip {
                    IpAddr::V4(n) => r.len() == end + 20 && be16(r, end + 6) == 1 && be16(
                        r,
                        end + 14,
                    ) == 4 && be_value(r.skip(end + 16)) == n,
                    IpAddr::V6(n) => r.len() == end + 32 && be16(r, end + 6) == 28 && be16(
                        r,
                        end + 14,
                    ) == 16 && be_value(r.skip(end + 16)) == n,
                }
            }
        }),
{
    let b = query(head, ls, tail);
    let name = name_bytes(ls);
    let end = (12 + name.len()) as int;
    let r = hijack_reply(b, end, ip);
    assert(b[end] == tail[0] && b[end + 1] == tail[1]);
    let has_answer = asks_for_family(be16(tail, 0), ip);
    let h = response_header(b, has_answer);
    let extra = if has_answer {
        answer(ip)
    } else {
        Seq::empty()
    };
    assert(r == h + b.subrange(12, end + 4) + extra);
    assert(b.subrange(12, end + 4) == name + tail.take(4));
    assert(r == h + name + (tail.take(4) + extra));
    assert(h.len() == 12);
    law_name_is_read(h, ls, tail.take(4) + extra);
    assert(r.take(2) == head.take(2));
    assert forall|i: int| 0 <= i < 12 implies r[i] == h[i] by {}
    assert(r.subrange(end, end + 4) == tail.take(4));
    if has_answer {
        assert(r.skip(end + 4) == answer(ip));
        assert forall|i: int| 0 <= i < 12 implies #[trigger] r[end + 4 + i] == answer(ip)[i] by {}
        assert(r[end + 4] == answer(ip)[0] && r[end + 5] == answer(ip)[1]);
        assert(r[end + 8] == answer(ip)[4] && r[end + 9] == answer(ip)[5]);
        assert(r[end + 10] == answer(ip)[6] && r[end + 11] == answer(ip)[7]);
        assert(r[end + 12] == answer(ip)[8] && r[end + 13] == answer(ip)[9]);
        assert(r[end + 14] == answer(ip)[10] && r[end + 15] == answer(ip)[11]);
        match ip {
            IpAddr::V4(n) => {
                lemma_pow256();
                lemma_be_value(n as nat, 4);
                assert(r[end + 6] == answer(ip)[2] && r[end + 7] == answer(ip)[3]);
                assert(r.skip(end + 16) == be_bytes(n as nat, 4));
            },
            IpAddr::V6(n) => {
                lemma_pow256();
                lemma_be_value(n as nat, 16);
                assert(r[end + 6] == answer(ip)[2] && r[end + 7] == answer(ip)[3]);
                assert(r.skip(end + 16) == be_bytes(n as nat, 16));
            },
        }
    }
}

/// How many bytes some labels have together.
pub open spec fn bytes_in(ls: Seq<Seq<u8>>) -> nat
    decreases ls.len(),
{
    if ls.len() == 0 {
        0
    } else {
        ls[0].len() + bytes_in(ls.skip(1))
    }
}

/// The name of one label is the label, a character for each byte, with capitals
/// made small.
pub proof fn law_name_of_one_label(label: Seq<u8>)
    ensures
        name_of(Seq::empty()).len() == 0,
        name_of(seq![label]).len() == label.len(),
        forall|i: int|
            #![trigger name_of(seq![label])[i]]
            0 <= i < label.len() ==> name_of(seq![label])[i] as int == if 65 <= label[i] <= 90 {
                label[i] + 32
            } else {
                label[i] as int
            },
{
    let chars = label.map_values(|byte: u8| byte as char);
    law_capitals_become_small(chars);
    assert(name_of(seq![label]) == label_text(label));
    assert forall|i: int|
        #![trigger name_of(seq![label])[i]]
        0 <= i < label.len() implies name_of(seq![label])[i] as int == if 65 <= label[i] <= 90 {
        label[i] + 32
    } else {
        label[i] as int
    } by {
        assert(chars[i] as int == label[i]);
        assert(lower(chars)[i] == name_of(seq![label])[i]);
    }
}

/// Wherever a list of labels is cut in two, its name is the name of the first
/// part, a dot and the name of the second.
pub proof fn law_name_joins_labels(front: Seq<Seq<u8>>, back: Seq<Seq<u8>>)
    requires
        front.len() > 0,
        back.len() > 0,
    ensures
        name_of(front + back) == name_of(front).push('.') + name_of(back),
    decreases back.len(),
{
    let all = front + back;
    assert(all.last() == back.last());
    if back.len() == 1 {
        assert(all.drop_last() == front);
        assert(back.last() == back[0]);
    } else {
        let less = back.drop_last();
        let last = label_text(back.last());
        assert(all.drop_last() == front + less);
        law_name_joins_labels(front, less);
        assert((name_of(front).push('.') + name_of(less)).push('.') + last == name_of(front).push(
            '.',
        ) + (name_of(less).push('.') + last));
    }
}

/// A name has all the characters of its labels and a dot between each two.
pub proof fn law_name_length(ls: Seq<Seq<u8>>)
    requires
        ls.len() > 0,
    ensures
        name_of(ls).len() == bytes_in(ls) + ls.len() - 1,
    decreases ls.len(),
{
    let first = ls.take(1);
    let rest = ls.skip(1);
    assert(first == seq![ls[0]]);
    law_name_of_one_label(ls[0]);
    if ls.len() == 1 {
        assert(ls == first);
        assert(bytes_in(rest) == 0);
    } else {
        assert(first + rest == ls);
        law_name_joins_labels(first, rest);
        law_name_length(rest);
    }
}

/// A suffix rule for a name answers every query for that name and for the names
/// below it, at any depth; so does a rule for it as a top level domain.
pub proof fn law_names_below_a_suffix_are_answered(
    head: Seq<u8>,
    below: Seq<Seq<u8>>,
    ls: Seq<Seq<u8>>,
    tail: Seq<u8>,
    ip: IpAddr,
    rules: RulesView,
    i: int,
)
    requires
        query_parts(head, below + ls, tail),
        ls.len() > 0,
        0 <= i < rules.suffix.len() && rules.suffix[i] == name_of(ls) || 0 <= i < rules.tld.len()
            && rules.tld[i] == name_of(ls),
    ensures
        dns_outcome(query(head, below + ls, tail), ip, rules) is Reply,
{
    let rule = name_of(ls);
    let name = name_of(below + ls);
    law_rules_decide_who_answers(head, below + ls, tail, ip, rules);
    if below.len() == 0 {
        assert(below + ls == ls);
    } else {
        law_name_joins_labels(below, ls);
        assert(name.skip(name_of(below).len() as int) == seq!['.'] + rule);
        assert((seq!['.'] + rule).is_suffix_of(name));
    }
    assert(suffix_match(name, rule));
    if 0 <= i < rules.suffix.len() && rules.suffix[i] == rule {
        assert(rule_matches(RuleKind::Suffix, rules.of(RuleKind::Suffix)[i], name));
    } else {
        assert(rule_matches(RuleKind::Tld, rules.of(RuleKind::Tld)[i], name));
    }
}

/// A packet that is too short for a header is dropped; one with a header that
/// announces no question goes back as it came.
pub proof fn law_packets_without_a_question(b: Seq<u8>, ip: IpAddr, rules: RulesView)
    ensures
        b.len() < 12 ==> dns_outcome(b, ip, rules) == DnsOutcome::Drop,
        b.len() >= 12 && b[4] == 0 && b[5] == 0 ==> dns_outcome(b, ip, rules) == DnsOutcome::Reply(
            b,
        ),
{
}

proof fn lemma_broken_name(before: Seq<u8>, ls: Seq<Seq<u8>>, n: int)
    requires
        valid_labels(ls),
        before.len() <= n < before.len() + name_bytes(ls).len(),
    ensures
        labels((before + name_bytes(ls)).take(n), before.len() as int) is None,
    decreases ls.len(),
{
    let b = (before + name_bytes(ls)).take(n);
    let at = before.len() as int;
    if ls.len() > 0 && at < n {
        let len = ls[0].len() as int;
        assert(0 < ls[0].len() <= 0xff);
        assert(b[at] == len);
        if at + 1 + len <= n {
            let rest = ls.skip(1);
            let front = before + (seq![ls[0].len() as u8] + ls[0]);
            assert(b == (front + name_bytes(rest)).take(n)) by {
                assert(before + name_bytes(ls) == front + name_bytes(rest));
            }
            assert(valid_labels(rest)) by {
                assert forall|i: int| 0 <= i < rest.len() implies 0 < (#[trigger] rest[i]).len()
                    <= 0xff by {
                    assert(rest[i] == ls[i + 1]);
                }
            }
            lemma_broken_name(front, rest, n);
        }
    }
}

/// A query that breaks off before its question ends is dropped.
pub proof fn law_broken_query_is_dropped(
    head: Seq<u8>,
    ls: Seq<Seq<u8>>,
    tail: Seq<u8>,
    n: int,
    ip: IpAddr,
    rules: RulesView,
)
    requires
        query_parts(head, ls, tail),
        0 <= n < 12 + name_bytes(ls).len() + 4,
    ensures
        dns_outcome(query(head, ls, tail).take(n), ip, rules) == DnsOutcome::Drop,
{
    let b = query(head, ls, tail).take(n);
    let end = 12 + name_bytes(ls).len() as int;
    if n >= 12 {
        assert(b[4] == head[4] && b[5] == head[5]);
        if n < end {
            assert(b == (head + name_bytes(ls)).take(n));
            lemma_broken_name(head, ls, n);
        } else {
            assert(b == head + name_bytes(ls) + tail.take(n - end));
            law_name_is_read(head, ls, tail.take(n - end));
        }
    }
}

/// An address of the listener's family is asked for by type 1 at an IPv4
/// listener, by type 28 at an IPv6 listener, and by no other type.
pub proof fn law_types_of_the_families(v4: u32, v6: u128, qtype: u16)
    ensures
        asks_for_family(qtype as int, IpAddr::V4(v4)) <==> qtype == 1,
        asks_for_family(qtype as int, IpAddr::V6(v6)) <==> qtype == 28,
{
}

/// The header of a reply: the number of the query, a reply without error, one
/// question, one answer or none, and nothing else.
pub proof fn law_reply_header(b: Seq<u8>, has_answer: bool)
    requires
        b.len() >= 2,
    ensures
        ({
            let h = response_header(b, has_answer);
            &&& h.len() == 12
            &&& h[0] == b[0] && h[1] == b[1]
            &&& h[2] == 0x81 && h[3] == 0x80
            &&& h[4] == 0 && h[5] == 1
            &&& h[6] == 0 && h[7] == if has_answer { 1int } else { 0int }
            &&& h[8] == 0 && h[9] == 0 && h[10] == 0 && h[11] == 0
        }),
{
}

} // verus!
