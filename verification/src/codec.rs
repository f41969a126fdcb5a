use vstd::prelude::*;

use crate::dates::{all_digits, digits_val, is_digit_byte};
use crate::list::{List, ListView, entry_bounds, wf};
use crate::task::{Entry, EntryView, Status, TaskError, opt_ts_view};

verus! {

// The persisted layout is one line of JSON: an object holding `entries`,
// an array of task objects with the fields `id`, `name`, `status`,
// `created_at` and `deadline`, and `next_id`. Times are integer seconds,
// a missing deadline is `null`, and the three status tokens are the
// literals `Todo`, `Done` and `Overdue`. The spec functions below give the
// exact bytes; the parsers read back everything the encoder can write.

/// Decimal digits of a number, most significant first.
pub open spec fn enc_u64(n: nat) -> Seq<u8>
    decreases n,
{
    if n < 10 {
        seq![(0x30 + n) as u8]
    } else {
        enc_u64(n / 10).push((0x30 + n % 10) as u8)
    }
}

/// A signed decimal number: a `-` before the digits of its magnitude.
pub open spec fn enc_i64(v: int) -> Seq<u8> {
    if v < 0 {
        seq![0x2du8] + enc_u64((-v) as nat)
    } else {
        enc_u64(v as nat)
    }
}

/// One name byte in a string literal: quote and backslash get a backslash
/// before them, everything else stands as it is.
pub open spec fn esc_byte(b: u8) -> Seq<u8> {
    if b == 0x22 || b == 0x5c {
        seq![0x5cu8, b]
    } else {
        seq![b]
    }
}

/// The escaped bytes of a name.
pub open spec fn enc_name(s: Seq<u8>) -> Seq<u8>
    decreases s.len(),
{
    if s.len() == 0 {
        Seq::empty()
    } else {
        esc_byte(s[0]) + enc_name(s.drop_first())
    }
}

/// The token naming a status.
pub open spec fn status_token(st: Status) -> Seq<u8> {
    match st {
        Status::Done => seq![0x44u8, 0x6fu8, 0x6eu8, 0x65u8],
        Status::Todo => seq![0x54u8, 0x6fu8, 0x64u8, 0x6fu8],
        Status::Overdue => seq![0x4fu8, 0x76u8, 0x65u8, 0x72u8, 0x64u8, 0x75u8, 0x65u8],
    }
}

/// The token `null`.
pub open spec fn lit_null() -> Seq<u8> {
    seq![0x6eu8, 0x75u8, 0x6cu8, 0x6cu8]
}

/// A deadline: its seconds, or `null` when absent.
pub open spec fn enc_opt_ts(d: Option<int>) -> Seq<u8> {
    match d {
        Some(v) => enc_i64(v),
        None => lit_null(),
    }
}

/// The literal `{"entries":[`.
pub open spec fn lit_header() -> Seq<u8> {
    seq![0x7bu8, 0x22u8, 0x65u8, 0x6eu8, 0x74u8, 0x72u8, 0x69u8, 0x65u8, 0x73u8, 0x22u8, 0x3au8, 0x5bu8]
}

/// The literal `{"id":`.
pub open spec fn lit_id() -> Seq<u8> {
    seq![0x7bu8, 0x22u8, 0x69u8, 0x64u8, 0x22u8, 0x3au8]
}

/// The literal `,"name":"`.
pub open spec fn lit_name() -> Seq<u8> {
    seq![0x2cu8, 0x22u8, 0x6eu8, 0x61u8, 0x6du8, 0x65u8, 0x22u8, 0x3au8, 0x22u8]
}

/// The literal `,"status":"`.
pub open spec fn lit_status() -> Seq<u8> {
    seq![0x2cu8, 0x22u8, 0x73u8, 0x74u8, 0x61u8, 0x74u8, 0x75u8, 0x73u8, 0x22u8, 0x3au8, 0x22u8]
}

/// The literal `,"created_at":`.
pub open spec fn lit_created() -> Seq<u8> {
    seq![0x2cu8, 0x22u8, 0x63u8, 0x72u8, 0x65u8, 0x61u8, 0x74u8, 0x65u8, 0x64u8, 0x5fu8, 0x61u8, 0x74u8, 0x22u8, 0x3au8]
}

/// The literal `,"deadline":`.
pub open spec fn lit_deadline() -> Seq<u8> {
    seq![0x2cu8, 0x22u8, 0x64u8, 0x65u8, 0x61u8, 0x64u8, 0x6cu8, 0x69u8, 0x6eu8, 0x65u8, 0x22u8, 0x3au8]
}

/// The literal `,"next_id":`.
pub open spec fn lit_next() -> Seq<u8> {
    seq![0x2cu8, 0x22u8, 0x6eu8, 0x65u8, 0x78u8, 0x74u8, 0x5fu8, 0x69u8, 0x64u8, 0x22u8, 0x3au8]
}

/// One task as a JSON object.
pub open spec fn enc_entry(e: EntryView) -> Seq<u8> {
    lit_id() + enc_i64(e.id) + lit_name() + enc_name(e.name) + seq![0x22u8] + lit_status()
        + status_token(e.status) + seq![0x22u8] + lit_created() + enc_i64(e.created_at)
        + lit_deadline() + enc_opt_ts(e.deadline) + seq![0x7du8]
}

/// The tasks as a comma-separated run of objects.
pub open spec fn enc_entries(es: Seq<EntryView>) -> Seq<u8>
    decreases es.len(),
{
    if es.len() == 0 {
        Seq::empty()
    } else if es.len() == 1 {
        enc_entry(es[0])
    } else {
        enc_entry(es[0]) + seq![0x2cu8] + enc_entries(es.drop_first())
    }
}

/// A whole task list as one JSON object.
pub open spec fn enc_list(l: ListView) -> Seq<u8> {
    lit_header() + enc_entries(l.entries) + seq![0x5du8] + lit_next() + enc_i64(l.next_id)
        + seq![0x7du8]
}

/// The digits of a number: at least one, digits only, denoting the number.
pub proof fn lemma_enc_u64(n: nat)
    ensures
        enc_u64(n).len() >= 1,
        all_digits(enc_u64(n)),
        digits_val(enc_u64(n)) == n,
    decreases n,
{
    if n < 10 {
        assert(enc_u64(n) =~= seq![(0x30 + n) as u8]);
        assert(enc_u64(n).drop_last() =~= Seq::<u8>::empty());
        assert(digits_val(Seq::<u8>::empty()) == 0);
    } else {
        lemma_enc_u64(n / 10);
        assert(enc_u64(n).drop_last() =~= enc_u64(n / 10));
        assert forall|k: int| 0 <= k < enc_u64(n).len() implies is_digit_byte(
            #[trigger] enc_u64(n)[k],
        ) by {
            if k < enc_u64(n).len() - 1 {
                assert(enc_u64(n)[k] == enc_u64(n / 10)[k]);
            }
        }
    }
}

/// Escaping distributes over concatenation.
pub proof fn lemma_enc_name_concat(a: Seq<u8>, b: Seq<u8>)
    ensures
        enc_name(a + b) == enc_name(a) + enc_name(b),
    decreases a.len(),
{
    if a.len() == 0 {
        assert(a + b =~= b);
        assert(enc_name(a) + enc_name(b) =~= enc_name(b));
    } else {
        assert((a + b).len() > 0);
        assert((a + b)[0] == a[0]);
        assert((a + b).drop_first() =~= a.drop_first() + b);
        lemma_enc_name_concat(a.drop_first(), b);
        assert(enc_name(a + b) =~= enc_name(a) + enc_name(b));
    }
}

/// How the run of objects grows when one task is appended.
pub proof fn lemma_enc_entries_push(es: Seq<EntryView>, e: EntryView)
    ensures
        es.len() == 0 ==> enc_entries(es.push(e)) == enc_entry(e),
        es.len() > 0 ==> enc_entries(es.push(e)) == enc_entries(es) + seq![0x2cu8] + enc_entry(e),
    decreases es.len(),
{
    let esp = es.push(e);
    if es.len() == 0 {
        assert(esp.len() == 1);
        assert(esp[0] == e);
    } else {
        assert(esp.drop_first() =~= es.drop_first().push(e));
        lemma_enc_entries_push(es.drop_first(), e);
        assert(esp[0] == es[0]);
        if es.len() == 1 {
            assert(enc_entries(es) =~= enc_entry(es[0]));
            assert(enc_entries(esp) =~= enc_entries(es) + seq![0x2cu8] + enc_entry(e));
        } else {
            assert(enc_entries(esp) =~= enc_entries(es) + seq![0x2cu8] + enc_entry(e));
        }
    }
}

/// Append a slice.
fn push_slice(out: &mut Vec<u8>, t: &[u8])
    ensures
        final(out)@ == old(out)@ + t@,
{
    let mut k: usize = 0;
    while k < t.len()
        invariant
            k <= t@.len(),
            out@ == old(out)@ + t@.take(k as int),
        decreases t@.len() - k,
    {
        out.push(t[k]);
        proof {
            assert(old(out)@ + t@.take(k + 1) =~= (old(out)@ + t@.take(k as int)).push(
                t@[k as int],
            ));
        }
        k = k + 1;
    }
    proof {
        assert(t@.take(t@.len() as int) =~= t@);
    }
}

/// Append the digits of a number.
fn push_u64(out: &mut Vec<u8>, n: u64)
    ensures
        final(out)@ == old(out)@ + enc_u64(n as nat),
    decreases n,
{
    if n < 10 {
        out.push(0x30 + (n as u8));
        proof {
            assert(old(out)@ + enc_u64(n as nat) =~= old(out)@.push((0x30 + n as nat) as u8));
        }
    } else {
        push_u64(out, n / 10);
        out.push(0x30 + ((n % 10) as u8));
        proof {
            assert(old(out)@ + enc_u64(n as nat) =~= (old(out)@ + enc_u64((n / 10) as nat)).push(
                (0x30 + (n as nat) % 10) as u8,
            ));
        }
    }
}

/// Append a signed number.
fn push_i64(out: &mut Vec<u8>, v: i64)
    ensures
        final(out)@ == old(out)@ + enc_i64(v as int),
{
    if v >= 0 {
        push_u64(out, v as u64);
    } else {
        out.push(0x2d);
        let mag: i128 = -(v as i128);
        push_u64(out, mag as u64);
        proof {
            assert(old(out)@ + enc_i64(v as int) =~= old(out)@.push(0x2du8) + enc_u64(
                (-(v as int)) as nat,
            ));
        }
    }
}

/// Append a name with its escapes.
#[verifier::loop_isolation(false)]
fn push_name(out: &mut Vec<u8>, name: &Vec<u8>)
    ensures
        final(out)@ == old(out)@ + enc_name(name@),
{
    let mut k: usize = 0;
    while k < name.len()
        invariant
            k <= name@.len(),
            out@ == old(out)@ + enc_name(name@.take(k as int)),
        decreases name@.len() - k,
    {
        let b = name[k];
        if b == 0x22 || b == 0x5c {
            out.push(0x5c);
            out.push(b);
        } else {
            out.push(b);
        }
        proof {
            assert(name@.take(k + 1) =~= name@.take(k as int) + seq![name@[k as int]]);
            lemma_enc_name_concat(name@.take(k as int), seq![name@[k as int]]);
            assert(seq![name@[k as int]].drop_first() =~= Seq::<u8>::empty());
            assert(enc_name(Seq::<u8>::empty()) =~= Seq::<u8>::empty());
            assert(enc_name(seq![name@[k as int]]) =~= esc_byte(name@[k as int]));
            assert(out@ =~= old(out)@ + enc_name(name@.take(k + 1)));
        }
        k = k + 1;
    }
    proof {
        assert(name@.take(name@.len() as int) =~= name@);
    }
}

/// Append one task object.
#[verifier::rlimit(60)]
fn push_entry(out: &mut Vec<u8>, e: &Entry)
    ensures
        final(out)@ == old(out)@ + enc_entry(e@),
{
    let l1: [u8; 6] = [0x7b, 0x22, 0x69, 0x64, 0x22, 0x3a];
    let l2: [u8; 9] = [0x2c, 0x22, 0x6e, 0x61, 0x6d, 0x65, 0x22, 0x3a, 0x22];
    let l3: [u8; 12] = [0x22, 0x2c, 0x22, 0x73, 0x74, 0x61, 0x74, 0x75, 0x73, 0x22, 0x3a, 0x22];
    let l4: [u8; 15] = [
        0x22,
        0x2c,
        0x22,
        0x63,
        0x72,
        0x65,
        0x61,
        0x74,
        0x65,
        0x64,
        0x5f,
        0x61,
        0x74,
        0x22,
        0x3a,
    ];
    let l5: [u8; 12] = [0x2c, 0x22, 0x64, 0x65, 0x61, 0x64, 0x6c, 0x69, 0x6e, 0x65, 0x22, 0x3a];
    proof {
        assert(l1@ =~= lit_id());
        assert(l2@ =~= lit_name());
        assert(l3@ =~= seq![0x22u8] + lit_status());
        assert(l4@ =~= seq![0x22u8] + lit_created());
        assert(l5@ =~= lit_deadline());
    }
    push_slice(out, l1.as_slice());
    push_i64(out, e.id as i64);
    push_slice(out, l2.as_slice());
    push_name(out, &e.name);
    push_slice(out, l3.as_slice());
    match e.status {
        Status::Done => {
            let t: [u8; 4] = [0x44, 0x6f, 0x6e, 0x65];
            proof {
                assert(t@ =~= status_token(Status::Done));
            }
            push_slice(out, t.as_slice());
        },
        Status::Todo => {
            let t: [u8; 4] = [0x54, 0x6f, 0x64, 0x6f];
            proof {
                assert(t@ =~= status_token(Status::Todo));
            }
            push_slice(out, t.as_slice());
        },
        Status::Overdue => {
            let t: [u8; 7] = [0x4f, 0x76, 0x65, 0x72, 0x64, 0x75, 0x65];
            proof {
                assert(t@ =~= status_token(Status::Overdue));
            }
            push_slice(out, t.as_slice());
        },
    }
    push_slice(out, l4.as_slice());
    push_i64(out, e.created_at);
    push_slice(out, l5.as_slice());
    match e.deadline {
        Some(d) => {
            push_i64(out, d);
        },
        None => {
            let t: [u8; 4] = [0x6e, 0x75, 0x6c, 0x6c];
            proof {
                assert(t@ =~= lit_null());
            }
            push_slice(out, t.as_slice());
        },
    }
    out.push(0x7d);
    proof {
        assert(final(out)@ =~= old(out)@ + enc_entry(e@));
    }
}

/// Serialize a task list: the bytes are exactly `enc_list` of its state.
#[verifier::loop_isolation(false)]
pub fn encode_list(list: &List) -> (out: Vec<u8>)
    ensures
        out@ == enc_list(list@),
{
    let header: [u8; 12] = [
        0x7b,
        0x22,
        0x65,
        0x6e,
        0x74,
        0x72,
        0x69,
        0x65,
        0x73,
        0x22,
        0x3a,
        0x5b,
    ];
    let footer: [u8; 12] = [0x5d, 0x2c, 0x22, 0x6e, 0x65, 0x78, 0x74, 0x5f, 0x69, 0x64, 0x22, 0x3a];
    proof {
        assert(header@ =~= lit_header());
        assert(footer@ =~= seq![0x5du8] + lit_next());
    }
    let ghost es = list@.entries;
    let mut out: Vec<u8> = Vec::new();
    push_slice(&mut out, header.as_slice());
    let mut i: usize = 0;
    while i < list.entries.len()
        invariant
            i <= es.len(),
            es == list@.entries,
            es.len() == list.entries.len(),
            out@ == lit_header() + enc_entries(es.take(i as int)),
        decreases es.len() - i,
    {
        if i > 0 {
            out.push(0x2c);
        }
        push_entry(&mut out, &list.entries[i]);
        proof {
            assert(es.take(i + 1).drop_last() =~= es.take(i as int));
            assert(es.take(i + 1) =~= es.take(i as int).push(es[i as int]));
            lemma_enc_entries_push(es.take(i as int), es[i as int]);
            assert(out@ =~= lit_header() + enc_entries(es.take(i + 1)));
        }
        i = i + 1;
    }
    proof {
        assert(es.take(es.len() as int) =~= es);
    }
    push_slice(&mut out, footer.as_slice());
    push_i64(&mut out, list.id_tracker as i64);
    out.push(0x7d);
    proof {
        assert(out@ =~= enc_list(list@));
    }
    out
}

/// A canonical number, then anything that starts with no digit.
pub open spec fn u64_premise(s: Seq<u8>, i: int, n: nat, rest: Seq<u8>) -> bool {
    &&& s.skip(i) == enc_u64(n) + rest
    &&& n <= u64::MAX as nat
    &&& (rest.len() == 0 || !is_digit_byte(rest[0]))
}

/// A canonical signed number, then anything that starts with no digit.
pub open spec fn i64_premise(s: Seq<u8>, i: int, v: int, rest: Seq<u8>) -> bool {
    &&& s.skip(i) == enc_i64(v) + rest
    &&& i64::MIN <= v <= i64::MAX
    &&& (rest.len() == 0 || !is_digit_byte(rest[0]))
}

/// Consume the exact bytes of `t`, or nothing.
#[verifier::loop_isolation(false)]
fn eat_slice(s: &[u8], i: usize, t: &[u8]) -> (r: Option<usize>)
    requires
        i <= s@.len(),
    ensures
        r matches Some(j) ==> j as int == i + t@.len() && j <= s@.len(),
        r is Some <==> (i + t@.len() <= s@.len() && s@.subrange(i as int, i + t@.len()) == t@),
{
    if s.len() - i < t.len() {
        return None;
    }
    let mut k: usize = 0;
    while k < t.len()
        invariant
            k <= t@.len(),
            forall|m: int| 0 <= m < k ==> s@[i + m] == t@[m],
        decreases t@.len() - k,
    {
        if s[i + k] != t[k] {
            proof {
                assert(s@.subrange(i as int, i + t@.len()) != t@) by {
                    assert(s@.subrange(i as int, i + t@.len())[k as int] == s@[i + k]);
                }
            }
            return None;
        }
        k = k + 1;
    }
    proof {
        assert(s@.subrange(i as int, i + t@.len()) =~= t@);
    }
    Some(i + t.len())
}

/// Read a run of digits as a number.
#[verifier::loop_isolation(false)]
fn parse_u64(s: &[u8], i: usize) -> (r: Option<(u64, usize)>)
    requires
        i <= s@.len(),
    ensures
        r matches Some(p) ==> i < p.1 <= s@.len(),
        forall|n: nat, rest: Seq<u8>| #[trigger]
            u64_premise(s@, i as int, n, rest) ==> r == Some(
                ((n as u64), (i + enc_u64(n).len()) as usize),
            ),
{
    let len = s.len();
    let mut j = i;
    let mut acc: u64 = 0;
    while j < len && 0x30 <= s[j] && s[j] <= 0x39
        invariant
            i <= j <= len,
            forall|k: int| i <= k < j ==> is_digit_byte(#[trigger] s@[k]),
            acc as nat == digits_val(s@.subrange(i as int, j as int)),
        decreases len - j,
    {
        let d = s[j] - 0x30;
        let wide: u128 = acc as u128 * 10 + d as u128;
        proof {
            assert(s@.subrange(i as int, j + 1).drop_last() =~= s@.subrange(i as int, j as int));
            assert(s@.subrange(i as int, j + 1).last() == s@[j as int]);
        }
        if wide > u64::MAX as u128 {
            proof {
                assert forall|n: nat, rest: Seq<u8>| !u64_premise(s@, i as int, n, rest) by {
                    if u64_premise(s@, i as int, n, rest) {
                        lemma_enc_u64(n);
                        if j + 1 - i > enc_u64(n).len() {
                            assert(s@.skip(i as int).len() == s@.len() - i);
                            assert(enc_u64(n).len() + rest.len() == s@.len() - i);
                            assert(rest.len() > 0);
                            assert(s@.skip(i as int)[enc_u64(n).len() as int] == rest[0]);
                            assert(s@.skip(i as int)[enc_u64(n).len() as int] == s@[i
                                + enc_u64(n).len()]);
                            assert(is_digit_byte(s@[i + enc_u64(n).len()]));
                        } else {
                            assert forall|m: int| 0 <= m < j + 1 - i implies (#[trigger] s@.subrange(
                                i as int,
                                j + 1,
                            )[m]) == enc_u64(n).take(j + 1 - i)[m] by {
                                assert(enc_u64(n)[m] == s@.skip(i as int)[m]);
                            }
                            assert(s@.subrange(i as int, j + 1) =~= enc_u64(n).take(j + 1 - i));
                            crate::dates::lemma_digits_prefix_le(enc_u64(n), j + 1 - i);
                        }
                    }
                }
            }
            return None;
        }
        acc = wide as u64;
        j = j + 1;
    }
    if j == i {
        proof {
            assert forall|n: nat, rest: Seq<u8>| !u64_premise(s@, i as int, n, rest) by {
                if u64_premise(s@, i as int, n, rest) {
                    lemma_enc_u64(n);
                    assert(s@.skip(i as int)[0] == enc_u64(n)[0]);
                    assert(s@.skip(i as int)[0] == s@[i as int]);
                    assert(is_digit_byte(s@[i as int]));
                }
            }
        }
        return None;
    }
    proof {
        assert forall|n: nat, rest: Seq<u8>| #[trigger]
            u64_premise(s@, i as int, n, rest) implies Some((acc, j)) == Some(
            ((n as u64), (i + enc_u64(n).len()) as usize),
        ) by {
            lemma_enc_u64(n);
            assert(s@.skip(i as int).len() == s@.len() - i);
            assert(enc_u64(n).len() + rest.len() == s@.len() - i);
            if i + enc_u64(n).len() > j {
                assert(j < s@.len());
                assert(s@.skip(i as int)[j - i] == enc_u64(n)[j - i]);
                assert(s@.skip(i as int)[j - i] == s@[j as int]);
                assert(is_digit_byte(s@[j as int]));
                assert(false);
            }
            if i + enc_u64(n).len() < j {
                assert(rest.len() > 0);
                assert(s@.skip(i as int)[enc_u64(n).len() as int] == rest[0]);
                assert(s@.skip(i as int)[enc_u64(n).len() as int] == s@[i + enc_u64(n).len()]);
                assert(is_digit_byte(s@[i + enc_u64(n).len()]));
                assert(false);
            }
            assert forall|m: int| 0 <= m < j - i implies (#[trigger] s@.subrange(
                i as int,
                j as int,
            )[m]) == enc_u64(n)[m] by {
                assert(enc_u64(n)[m] == s@.skip(i as int)[m]);
            }
            assert(s@.subrange(i as int, j as int) =~= enc_u64(n));
        }
    }
    Some((acc, j))
}

/// Read a signed number.
fn parse_i64(s: &[u8], i: usize) -> (r: Option<(i64, usize)>)
    requires
        i <= s@.len(),
    ensures
        r matches Some(p) ==> i < p.1 <= s@.len(),
        forall|v: int, rest: Seq<u8>| #[trigger]
            i64_premise(s@, i as int, v, rest) ==> r == Some(
                ((v as i64), (i + enc_i64(v).len()) as usize),
            ),
{
    let len = s.len();
    if i < len && s[i] == 0x2d {
        proof {
            assert forall|v: int, rest: Seq<u8>| #[trigger]
                i64_premise(s@, i as int, v, rest) implies v < 0 && u64_premise(
                s@,
                i + 1,
                (-v) as nat,
                rest,
            ) by {
                if v >= 0 {
                    lemma_enc_u64(v as nat);
                    assert(s@.skip(i as int)[0] == enc_u64(v as nat)[0]);
                    assert(s@.skip(i as int)[0] == s@[i as int]);
                    assert(is_digit_byte(s@[i as int]));
                    assert(false);
                }
                assert(s@.skip(i + 1) =~= s@.skip(i as int).skip(1));
                assert(s@.skip(i + 1) =~= enc_u64((-v) as nat) + rest);
            }
        }
        match parse_u64(s, i + 1) {
            Some((m, j)) => {
                if m <= 9223372036854775807u64 {
                    if m == 0 {
                        // a canonical encoding never writes a minus before zero
                        proof {
                            assert forall|v: int, rest: Seq<u8>| !i64_premise(
                                s@,
                                i as int,
                                v,
                                rest,
                            ) by {
                                if i64_premise(s@, i as int, v, rest) {
                                    assert(u64_premise(s@, i + 1, (-v) as nat, rest));
                                }
                            }
                        }
                        return None;
                    }
                    Some((-(m as i64), j))
                } else if m == 9223372036854775808u64 {
                    Some((i64::MIN, j))
                } else {
                    proof {
                        assert forall|v: int, rest: Seq<u8>| !i64_premise(s@, i as int, v, rest) by {
                            if i64_premise(s@, i as int, v, rest) {
                                assert(u64_premise(s@, i + 1, (-v) as nat, rest));
                            }
                        }
                    }
                    None
                }
            },
            None => {
                None
            },
        }
    } else {
        proof {
            assert forall|v: int, rest: Seq<u8>| #[trigger]
                i64_premise(s@, i as int, v, rest) implies v >= 0 && u64_premise(
                s@,
                i as int,
                v as nat,
                rest,
            ) by {
                if v < 0 {
                    assert(s@.skip(i as int).len() == s@.len() - i);
                    assert(enc_i64(v).len() + rest.len() == s@.len() - i);
                    assert(i < s@.len());
                    assert(s@.skip(i as int)[0] == enc_i64(v)[0]);
                    assert(s@.skip(i as int)[0] == s@[i as int]);
                    assert(s@[i as int] == 0x2du8);
                    assert(false);
                }
            }
        }
        match parse_u64(s, i) {
            Some((m, j)) => {
                if m <= 9223372036854775807u64 {
                    Some((m as i64, j))
                } else {
                    None
                }
            },
            None => {
                None
            },
        }
    }
}


/// An escaped name, its closing quote, then anything.
pub open spec fn name_premise(s: Seq<u8>, i: int, name: Seq<u8>, rest: Seq<u8>) -> bool {
    s.skip(i) == enc_name(name) + seq![0x22u8] + rest
}

/// What the input holds at position `j`, after `k` name bytes were read.
proof fn lemma_name_position(s: Seq<u8>, i: int, j: int, name: Seq<u8>, rest: Seq<u8>, k: int)
    requires
        name_premise(s, i, name, rest),
        0 <= k <= name.len(),
        0 <= i <= j <= s.len(),
        j == i + enc_name(name.take(k)).len(),
    ensures
        s.skip(j) == enc_name(name.skip(k)) + seq![0x22u8] + rest,
        k < name.len() ==> j < s.len() && s[j] == esc_byte(name[k])[0],
        k < name.len() ==> enc_name(name.skip(k)) == esc_byte(name[k]) + enc_name(name.skip(k + 1)),
        k == name.len() ==> j < s.len() && s[j] == 0x22u8,
{
    assert(name =~= name.take(k) + name.skip(k));
    lemma_enc_name_concat(name.take(k), name.skip(k));
    let pre = enc_name(name.take(k));
    let post = enc_name(name.skip(k)) + seq![0x22u8] + rest;
    assert(s.skip(i) =~= pre + post);
    assert(s.skip(i).len() == s.len() - i);
    assert(post.len() == s.len() - j);
    assert(s.skip(j).len() == s.len() - j);
    assert forall|m: int| 0 <= m < post.len() implies (#[trigger] s.skip(j)[m]) == post[m] by {
        assert(s.skip(j)[m] == s[j + m]);
        assert(s.skip(i)[(j - i) + m] == s[i + ((j - i) + m)]);
        assert((pre + post)[(j - i) + m] == post[m]);
    }
    assert(s.skip(j) =~= post);
    if k < name.len() {
        assert(name.skip(k)[0] == name[k]);
        assert(name.skip(k).drop_first() =~= name.skip(k + 1));
        assert(enc_name(name.skip(k)) == esc_byte(name[k]) + enc_name(name.skip(k + 1)));
        assert(post[0] == esc_byte(name[k])[0]);
        assert(s.skip(j)[0] == s[j]);
    } else {
        assert(name.skip(k).len() == 0);
        assert(enc_name(name.skip(k)) =~= Seq::<u8>::empty());
        assert(post[0] == 0x22u8);
        assert(s.skip(j)[0] == s[j]);
    }
}

/// Read a string body up to its closing quote, undoing the escapes.
#[verifier::loop_isolation(false)]
#[verifier::rlimit(30)]
fn parse_name(s: &[u8], i: usize) -> (r: Option<(Vec<u8>, usize)>)
    requires
        i <= s@.len(),
    ensures
        r matches Some(p) ==> i < p.1 <= s@.len(),
        forall|name: Seq<u8>, rest: Seq<u8>| #[trigger]
            name_premise(s@, i as int, name, rest) ==> (r is Some && (r matches Some(p) ==> p.0@
                == name && p.1 as int == i + enc_name(name).len() + 1)),
{
    let len = s.len();
    let mut j = i;
    let mut out: Vec<u8> = Vec::new();
    proof {
        assert forall|name: Seq<u8>, rest: Seq<u8>| #[trigger]
            name_premise(s@, i as int, name, rest) implies (out@.len() <= name.len() && out@
            == name.take(out@.len() as int) && j as int == i + enc_name(
            name.take(out@.len() as int),
        ).len()) by {
            assert(name.take(0) =~= Seq::<u8>::empty());
            assert(out@ =~= Seq::<u8>::empty());
            assert(enc_name(Seq::<u8>::empty()).len() == 0);
        }
    }
    while j < len
        invariant
            i <= j <= len,
            forall|name: Seq<u8>, rest: Seq<u8>| #[trigger]
                name_premise(s@, i as int, name, rest) ==> (out@.len() <= name.len() && out@
                    == name.take(out@.len() as int) && j as int == i + enc_name(
                    name.take(out@.len() as int),
                ).len()),
        decreases len - j,
    {
        let b = s[j];
        if b == 0x22 {
            proof {
                assert forall|name: Seq<u8>, rest: Seq<u8>| #[trigger]
                    name_premise(s@, i as int, name, rest) implies (out@ == name && j as int == i
                    + enc_name(name).len()) by {
                    let k = out@.len() as int;
                    lemma_name_position(s@, i as int, j as int, name, rest, k);
                    if k < name.len() {
                        assert(s@[j as int] == esc_byte(name[k])[0]);
                        assert(false);
                    }
                    assert(name.take(k) =~= name);
                }
            }
            return Some((out, j + 1));
        } else if b == 0x5c {
            if j + 1 >= len {
                proof {
                    assert forall|name: Seq<u8>, rest: Seq<u8>| !name_premise(
                        s@,
                        i as int,
                        name,
                        rest,
                    ) by {
                        if name_premise(s@, i as int, name, rest) {
                            let k = out@.len() as int;
                            lemma_name_position(s@, i as int, j as int, name, rest, k);
                            if k == name.len() {
                                assert(s@[j as int] == 0x22u8);
                                assert(false);
                            }
                            assert(s@[j as int] == esc_byte(name[k])[0]);
                            assert(name[k] == 0x22 || name[k] == 0x5c);
                            assert(s@.skip(j as int).len() == s@.len() - j);
                            assert(esc_byte(name[k]).len() == 2);
                            assert(s@.len() - j >= 3);
                            assert(false);
                        }
                    }
                }
                return None;
            }
            let c = s[j + 1];
            proof {
                assert forall|name: Seq<u8>, rest: Seq<u8>| #[trigger]
                    name_premise(s@, i as int, name, rest) implies (out@.len() < name.len()
                    && name[out@.len() as int] == s@[j + 1] && enc_name(
                    name.take(out@.len() as int + 1),
                ) == enc_name(name.take(out@.len() as int)) + esc_byte(name[out@.len() as int])
                    && esc_byte(name[out@.len() as int]).len() == 2) by {
                    let k = out@.len() as int;
                    lemma_name_position(s@, i as int, j as int, name, rest, k);
                    if k == name.len() {
                        assert(s@[j as int] == 0x22u8);
                        assert(false);
                    }
                    assert(s@[j as int] == esc_byte(name[k])[0]);
                    assert(name[k] == 0x22 || name[k] == 0x5c);
                    let post = enc_name(name.skip(k)) + seq![0x22u8] + rest;
                    assert(s@.skip(j as int) == post);
                    assert(post[1] == esc_byte(name[k])[1]);
                    assert(s@.skip(j as int)[1] == s@[j + 1]);
                    assert(s@[j + 1] == name[k]);
                    assert(name.take(k + 1) =~= name.take(k) + seq![name[k]]);
                    lemma_enc_name_concat(name.take(k), seq![name[k]]);
                    assert(seq![name[k]].drop_first() =~= Seq::<u8>::empty());
                    assert(enc_name(Seq::<u8>::empty()) =~= Seq::<u8>::empty());
                    assert(enc_name(seq![name[k]]) =~= esc_byte(name[k]));
                }
            }
            out.push(c);
            j = j + 2;
        } else {
            proof {
                assert forall|name: Seq<u8>, rest: Seq<u8>| #[trigger]
                    name_premise(s@, i as int, name, rest) implies (out@.len() < name.len()
                    && name[out@.len() as int] == s@[j as int] && enc_name(
                    name.take(out@.len() as int + 1),
                ) == enc_name(name.take(out@.len() as int)) + esc_byte(name[out@.len() as int])
                    && esc_byte(name[out@.len() as int]).len() == 1) by {
                    let k = out@.len() as int;
                    lemma_name_position(s@, i as int, j as int, name, rest, k);
                    if k == name.len() {
                        assert(s@[j as int] == 0x22u8);
                        assert(false);
                    }
                    assert(s@[j as int] == esc_byte(name[k])[0]);
                    if name[k] == 0x22 || name[k] == 0x5c {
                        assert(s@[j as int] == 0x5cu8);
                        assert(false);
                    }
                    assert(name[k] == s@[j as int]);
                    assert(name.take(k + 1) =~= name.take(k) + seq![name[k]]);
                    lemma_enc_name_concat(name.take(k), seq![name[k]]);
                    assert(seq![name[k]].drop_first() =~= Seq::<u8>::empty());
                    assert(enc_name(Seq::<u8>::empty()) =~= Seq::<u8>::empty());
                    assert(enc_name(seq![name[k]]) =~= esc_byte(name[k]));
                }
            }
            out.push(b);
            j = j + 1;
        }
    }
    proof {
        assert forall|name: Seq<u8>, rest: Seq<u8>| !name_premise(s@, i as int, name, rest) by {
            if name_premise(s@, i as int, name, rest) {
                let k = out@.len() as int;
                lemma_name_position(s@, i as int, j as int, name, rest, k);
                if k < name.len() {
                    assert(s@[j as int] == esc_byte(name[k])[0]);
                } else {
                    assert(s@[j as int] == 0x22u8);
                }
                assert(false);
            }
        }
    }
    None
}

/// A status token, its closing quote, then anything.
pub open spec fn status_premise(s: Seq<u8>, i: int, st: Status, rest: Seq<u8>) -> bool {
    s.skip(i) == status_token(st) + seq![0x22u8] + rest
}

/// Read a status token up to its closing quote.
fn parse_status(s: &[u8], i: usize) -> (r: Option<(Status, usize)>)
    requires
        i <= s@.len(),
    ensures
        r matches Some(p) ==> i < p.1 <= s@.len(),
        forall|st: Status, rest: Seq<u8>| #[trigger]
            status_premise(s@, i as int, st, rest) ==> r == Some(
                (st, (i + status_token(st).len() + 1) as usize),
            ),
{
    let t_done: [u8; 5] = [0x44, 0x6f, 0x6e, 0x65, 0x22];
    let t_todo: [u8; 5] = [0x54, 0x6f, 0x64, 0x6f, 0x22];
    let t_over: [u8; 8] = [0x4f, 0x76, 0x65, 0x72, 0x64, 0x75, 0x65, 0x22];
    proof {
        assert(t_done@ =~= status_token(Status::Done) + seq![0x22u8]);
        assert(t_todo@ =~= status_token(Status::Todo) + seq![0x22u8]);
        assert(t_over@ =~= status_token(Status::Overdue) + seq![0x22u8]);
        assert forall|st: Status, rest: Seq<u8>| #[trigger]
            status_premise(s@, i as int, st, rest) implies (i + status_token(st).len() + 1
            <= s@.len() && s@.subrange(i as int, i + status_token(st).len() + 1) == status_token(st)
            + seq![0x22u8] && s@[i as int] == status_token(st)[0]) by {
            assert(s@.skip(i as int).len() == s@.len() - i);
            let tl = status_token(st).len() as int;
            assert forall|m: int| 0 <= m < tl + 1 implies (#[trigger] s@.subrange(
                i as int,
                i + tl + 1,
            )[m]) == (status_token(st) + seq![0x22u8])[m] by {
                assert(s@.skip(i as int)[m] == s@[i + m]);
            }
            assert(s@.subrange(i as int, i + tl + 1) =~= status_token(st) + seq![0x22u8]);
            assert(s@.skip(i as int)[0] == s@[i as int]);
        }
    }
    match eat_slice(s, i, t_done.as_slice()) {
        Some(j) => {
            proof {
                assert(s@.subrange(i as int, i + 5)[0] == s@[i as int]);
                assert forall|st: Status, rest: Seq<u8>| #[trigger]
                    status_premise(s@, i as int, st, rest) implies st == Status::Done by {
                    assert(s@[i as int] == 0x44u8);
                }
            }
            return Some((Status::Done, j));
        },
        None => {},
    }
    match eat_slice(s, i, t_todo.as_slice()) {
        Some(j) => {
            proof {
                assert(s@.subrange(i as int, i + 5)[0] == s@[i as int]);
                assert forall|st: Status, rest: Seq<u8>| #[trigger]
                    status_premise(s@, i as int, st, rest) implies st == Status::Todo by {
                    assert(s@[i as int] == 0x54u8);
                }
            }
            return Some((Status::Todo, j));
        },
        None => {},
    }
    match eat_slice(s, i, t_over.as_slice()) {
        Some(j) => {
            proof {
                assert(s@.subrange(i as int, i + 8)[0] == s@[i as int]);
                assert forall|st: Status, rest: Seq<u8>| #[trigger]
                    status_premise(s@, i as int, st, rest) implies st == Status::Overdue by {
                    assert(s@[i as int] == 0x4fu8);
                }
            }
            return Some((Status::Overdue, j));
        },
        None => {},
    }
    proof {
        assert forall|st: Status, rest: Seq<u8>| !status_premise(s@, i as int, st, rest) by {
            if status_premise(s@, i as int, st, rest) {
                match st {
                    Status::Done => {
                        assert(s@.subrange(i as int, i + 5) =~= t_done@);
                    },
                    Status::Todo => {
                        assert(s@.subrange(i as int, i + 5) =~= t_todo@);
                    },
                    Status::Overdue => {
                        assert(s@.subrange(i as int, i + 8) =~= t_over@);
                    },
                }
                assert(false);
            }
        }
    }
    None
}

/// A deadline value, then anything that starts with no digit.
pub open spec fn opt_premise(s: Seq<u8>, i: int, d: Option<int>, rest: Seq<u8>) -> bool {
    &&& s.skip(i) == enc_opt_ts(d) + rest
    &&& (d matches Some(v) ==> i64::MIN <= v <= i64::MAX)
    &&& (rest.len() == 0 || !is_digit_byte(rest[0]))
}

/// Read a deadline: a signed number or `null`.
fn parse_opt_ts(s: &[u8], i: usize) -> (r: Option<(Option<i64>, usize)>)
    requires
        i <= s@.len(),
    ensures
        r matches Some(p) ==> i < p.1 <= s@.len(),
        forall|d: Option<int>, rest: Seq<u8>| #[trigger]
            opt_premise(s@, i as int, d, rest) ==> (r is Some && (r matches Some(p) ==> opt_ts_view(
                p.0,
            ) == d && p.1 as int == i + enc_opt_ts(d).len())),
{
    let len = s.len();
    if i < len && s[i] == 0x6e {
        let t_null: [u8; 4] = [0x6e, 0x75, 0x6c, 0x6c];
        proof {
            assert(t_null@ =~= lit_null());
            assert forall|d: Option<int>, rest: Seq<u8>| #[trigger]
                opt_premise(s@, i as int, d, rest) implies (d is None && i + 4 <= s@.len()
                && s@.subrange(i as int, i + 4) == lit_null()) by {
                assert(s@.skip(i as int).len() == s@.len() - i);
                if d is Some {
                    let v = d->0;
                    assert(s@.skip(i as int)[0] == s@[i as int]);
                    assert(s@.skip(i as int)[0] == enc_i64(v)[0]);
                    if v < 0 {
                        assert(enc_i64(v)[0] == 0x2du8);
                    } else {
                        lemma_enc_u64(v as nat);
                        assert(is_digit_byte(enc_i64(v)[0]));
                    }
                    assert(false);
                }
                assert forall|m: int| 0 <= m < 4 implies (#[trigger] s@.subrange(i as int, i + 4)[m])
                    == lit_null()[m] by {
                    assert(s@.skip(i as int)[m] == s@[i + m]);
                }
                assert(s@.subrange(i as int, i + 4) =~= lit_null());
            }
        }
        match eat_slice(s, i, t_null.as_slice()) {
            Some(j) => {
                proof {
                    assert forall|d: Option<int>, rest: Seq<u8>| #[trigger]
                        opt_premise(s@, i as int, d, rest) implies (opt_ts_view(None::<i64>) == d
                        && j as int == i + enc_opt_ts(d).len()) by {
                        assert(d is None);
                    }
                }
                Some((None, j))
            },
            None => {
                None
            },
        }
    } else {
        proof {
            assert forall|d: Option<int>, rest: Seq<u8>| #[trigger]
                opt_premise(s@, i as int, d, rest) implies (d is Some && i64_premise(
                s@,
                i as int,
                d->0,
                rest,
            )) by {
                assert(s@.skip(i as int).len() == s@.len() - i);
                if d is None {
                    assert(s@.skip(i as int)[0] == s@[i as int]);
                    assert(s@.skip(i as int)[0] == lit_null()[0]);
                    assert(s@[i as int] == 0x6eu8);
                    assert(false);
                }
            }
        }
        match parse_i64(s, i) {
            Some((v, j)) => {
                proof {
                    assert forall|d: Option<int>, rest: Seq<u8>| #[trigger]
                        opt_premise(s@, i as int, d, rest) implies (opt_ts_view(Some(v)) == d
                        && j as int == i + enc_opt_ts(d).len()) by {
                        assert(i64_premise(s@, i as int, d->0, rest));
                        assert(Some((v, j)) == Some(
                            (((d->0) as i64), (i + enc_i64(d->0).len()) as usize),
                        ));
                        assert(v == (d->0) as i64);
                        assert(v as int == d->0);
                        assert(d == Some(d->0));
                        assert(enc_opt_ts(d) == enc_i64(d->0));
                    }
                }
                Some((Some(v), j))
            },
            None => {
                None
            },
        }
    }
}


/// What follows the `id` value inside an entry object.
pub open spec fn tail_after_id(e: EntryView, rest: Seq<u8>) -> Seq<u8> {
    lit_name() + tail_name(e, rest)
}

/// The name string with its closing quote, and what follows it.
pub open spec fn tail_name(e: EntryView, rest: Seq<u8>) -> Seq<u8> {
    enc_name(e.name) + seq![0x22u8] + tail_after_name(e, rest)
}

/// What follows the name string.
pub open spec fn tail_after_name(e: EntryView, rest: Seq<u8>) -> Seq<u8> {
    lit_status() + tail_status(e, rest)
}

/// The status token with its closing quote, and what follows it.
pub open spec fn tail_status(e: EntryView, rest: Seq<u8>) -> Seq<u8> {
    status_token(e.status) + seq![0x22u8] + tail_after_status(e, rest)
}

/// What follows the status string.
pub open spec fn tail_after_status(e: EntryView, rest: Seq<u8>) -> Seq<u8> {
    lit_created() + tail_created(e, rest)
}

/// The creation time and what follows it.
pub open spec fn tail_created(e: EntryView, rest: Seq<u8>) -> Seq<u8> {
    enc_i64(e.created_at) + tail_after_created(e, rest)
}

/// What follows the creation time.
pub open spec fn tail_after_created(e: EntryView, rest: Seq<u8>) -> Seq<u8> {
    lit_deadline() + tail_deadline(e, rest)
}

/// The deadline value and what follows it.
pub open spec fn tail_deadline(e: EntryView, rest: Seq<u8>) -> Seq<u8> {
    enc_opt_ts(e.deadline) + tail_end(rest)
}

/// The closing brace and whatever follows the entry.
pub open spec fn tail_end(rest: Seq<u8>) -> Seq<u8> {
    seq![0x7du8] + rest
}

/// An entry object split at its first field value.
#[verifier::rlimit(100)]
proof fn lemma_entry_split(e: EntryView, rest: Seq<u8>)
    ensures
        enc_entry(e) + rest == lit_id() + (enc_i64(e.id) + tail_after_id(e, rest)),
{
    assert(enc_entry(e) + rest =~= lit_id() + (enc_i64(e.id) + tail_after_id(e, rest)));
}

/// Dropping a known prefix of the remaining input.
proof fn lemma_skip_concat(s: Seq<u8>, i: int, a: Seq<u8>, b: Seq<u8>)
    requires
        0 <= i <= s.len(),
        s.skip(i) == a + b,
    ensures
        i + a.len() <= s.len(),
        s.skip(i + a.len()) == b,
{
    assert(s.skip(i).len() == s.len() - i);
    assert forall|m: int| 0 <= m < b.len() implies (#[trigger] s.skip(i + a.len())[m]) == b[m] by {
        assert(s.skip(i + a.len())[m] == s[i + a.len() + m]);
        assert(s.skip(i)[a.len() + m] == s[i + (a.len() + m)]);
        assert((a + b)[a.len() + m] == b[m]);
    }
    assert(s.skip(i + a.len()).len() == b.len());
    assert(s.skip(i + a.len()) =~= b);
}

/// A known prefix of the remaining input, as a subrange.
proof fn lemma_prefix_subrange(s: Seq<u8>, i: int, a: Seq<u8>, b: Seq<u8>)
    requires
        0 <= i <= s.len(),
        s.skip(i) == a + b,
    ensures
        i + a.len() <= s.len(),
        s.subrange(i, i + a.len()) == a,
{
    assert(s.skip(i).len() == s.len() - i);
    assert forall|m: int| 0 <= m < a.len() implies (#[trigger] s.subrange(i, i + a.len())[m])
        == a[m] by {
        assert(s.subrange(i, i + a.len())[m] == s[i + m]);
        assert(s.skip(i)[m] == s[i + m]);
        assert((a + b)[m] == a[m]);
    }
    assert(s.subrange(i, i + a.len()) =~= a);
}

/// An entry object, then anything.
pub open spec fn entry_premise(s: Seq<u8>, i: int, e: EntryView, rest: Seq<u8>) -> bool {
    &&& s.skip(i) == enc_entry(e) + rest
    &&& entry_bounds(e)
}

/// Read one entry object.
#[verifier::rlimit(100)]
fn parse_entry(s: &[u8], i: usize) -> (r: Option<(Entry, usize)>)
    requires
        i <= s@.len(),
    ensures
        r matches Some(p) ==> i < p.1 <= s@.len(),
        forall|e: EntryView, rest: Seq<u8>| #[trigger]
            entry_premise(s@, i as int, e, rest) ==> (r is Some && (r matches Some(p) ==> p.0@ == e
                && p.1 as int == i + enc_entry(e).len())),
{
    let l1: [u8; 6] = [0x7b, 0x22, 0x69, 0x64, 0x22, 0x3a];
    let l2: [u8; 9] = [0x2c, 0x22, 0x6e, 0x61, 0x6d, 0x65, 0x22, 0x3a, 0x22];
    let l3: [u8; 11] = [0x2c, 0x22, 0x73, 0x74, 0x61, 0x74, 0x75, 0x73, 0x22, 0x3a, 0x22];
    let l4: [u8; 14] = [
        0x2c,
        0x22,
        0x63,
        0x72,
        0x65,
        0x61,
        0x74,
        0x65,
        0x64,
        0x5f,
        0x61,
        0x74,
        0x22,
        0x3a,
    ];
    let l5: [u8; 12] = [0x2c, 0x22, 0x64, 0x65, 0x61, 0x64, 0x6c, 0x69, 0x6e, 0x65, 0x22, 0x3a];
    let l6: [u8; 1] = [0x7d];
    let _slen = s.len();
    proof {
        assert(s@.len() <= usize::MAX);
        assert(l1@ =~= lit_id());
        assert(l2@ =~= lit_name());
        assert(l3@ =~= lit_status());
        assert(l4@ =~= lit_created());
        assert(l5@ =~= lit_deadline());
        assert(l6@ =~= seq![0x7du8]);
        assert forall|e: EntryView, rest: Seq<u8>| #[trigger]
            entry_premise(s@, i as int, e, rest) implies (i + lit_id().len() <= s@.len()
            && s@.subrange(i as int, i + lit_id().len()) == lit_id()) by {
            lemma_entry_split(e, rest);
            lemma_prefix_subrange(
                s@,
                i as int,
                lit_id(),
                enc_i64(e.id) + tail_after_id(e, rest),
            );
        }
    }
    let j1 = match eat_slice(s, i, l1.as_slice()) {
        Some(j) => j,
        None => {
            return None;
        },
    };
    proof {
        assert forall|e: EntryView, rest: Seq<u8>| #[trigger]
            entry_premise(s@, i as int, e, rest) implies (j1 as int == i + lit_id().len()
            && i64_premise(s@, j1 as int, e.id, tail_after_id(e, rest))) by {
            lemma_entry_split(e, rest);
            lemma_skip_concat(s@, i as int, lit_id(), enc_i64(e.id) + tail_after_id(e, rest));
            assert(tail_after_id(e, rest)[0] == 0x2cu8);
        }
    }
    let (idv, j2) = match parse_i64(s, j1) {
        Some(p) => p,
        None => {
            return None;
        },
    };
    if idv < 0 || idv > 2147483647 {
        proof {
            assert forall|e: EntryView, rest: Seq<u8>| !entry_premise(s@, i as int, e, rest) by {
                if entry_premise(s@, i as int, e, rest) {
                    assert(idv == (e.id) as i64);
                }
            }
        }
        return None;
    }
    let id32: i32 = idv as i32;
    proof {
        assert forall|e: EntryView, rest: Seq<u8>| #[trigger]
            entry_premise(s@, i as int, e, rest) implies (j2 as int == j1 + enc_i64(e.id).len()
            && s@.skip(j2 as int) == tail_after_id(e, rest) && id32 as int == e.id) by {
            assert(i64_premise(s@, j1 as int, e.id, tail_after_id(e, rest)));
            assert(s@.skip(j1 as int).len() == s@.len() - j1);
            assert(Some((idv, j2)) == Some(
                (((e.id) as i64), (j1 + enc_i64(e.id).len()) as usize),
            ));
            assert(idv == (e.id) as i64);
            lemma_skip_concat(s@, j1 as int, enc_i64(e.id), tail_after_id(e, rest));
        }
    }
    proof {
        assert forall|e: EntryView, rest: Seq<u8>| #[trigger]
            entry_premise(s@, i as int, e, rest) implies (j2 + lit_name().len() <= s@.len()
            && s@.subrange(j2 as int, j2 + lit_name().len()) == lit_name()) by {
            lemma_prefix_subrange(s@, j2 as int, lit_name(), tail_name(e, rest));
        }
    }
    let j3 = match eat_slice(s, j2, l2.as_slice()) {
        Some(j) => j,
        None => {
            return None;
        },
    };
    proof {
        assert forall|e: EntryView, rest: Seq<u8>| #[trigger]
            entry_premise(s@, i as int, e, rest) implies (j3 as int == j2 + lit_name().len()
            && name_premise(s@, j3 as int, e.name, tail_after_name(e, rest))) by {
            lemma_skip_concat(s@, j2 as int, lit_name(), tail_name(e, rest));
            assert(s@.skip(j3 as int) == enc_name(e.name) + seq![0x22u8] + tail_after_name(
                e,
                rest,
            ));
        }
    }
    let (namev, j4) = match parse_name(s, j3) {
        Some(p) => p,
        None => {
            return None;
        },
    };
    proof {
        assert forall|e: EntryView, rest: Seq<u8>| #[trigger]
            entry_premise(s@, i as int, e, rest) implies (namev@ == e.name && j4 as int == j3
            + enc_name(e.name).len() + 1 && s@.skip(j4 as int) == tail_after_name(e, rest)) by {
            assert(tail_name(e, rest) =~= (enc_name(e.name) + seq![0x22u8]) + tail_after_name(
                e,
                rest,
            ));
            lemma_skip_concat(
                s@,
                j3 as int,
                enc_name(e.name) + seq![0x22u8],
                tail_after_name(e, rest),
            );
        }
    }
    let j5 = match eat_slice(s, j4, l3.as_slice()) {
        Some(j) => j,
        None => {
            proof {
                assert forall|e: EntryView, rest: Seq<u8>| !entry_premise(
                    s@,
                    i as int,
                    e,
                    rest,
                ) by {
                    if entry_premise(s@, i as int, e, rest) {
                        lemma_prefix_subrange(
                            s@,
                            j4 as int,
                            lit_status(),
                            tail_status(e, rest),
                        );
                    }
                }
            }
            return None;
        },
    };
    proof {
        assert forall|e: EntryView, rest: Seq<u8>| #[trigger]
            entry_premise(s@, i as int, e, rest) implies (j5 as int == j4 + lit_status().len()
            && status_premise(s@, j5 as int, e.status, tail_after_status(e, rest))) by {
            lemma_prefix_subrange(s@, j4 as int, lit_status(), tail_status(e, rest));
            lemma_skip_concat(s@, j4 as int, lit_status(), tail_status(e, rest));
            assert(s@.skip(j5 as int) == status_token(e.status) + seq![0x22u8] + tail_after_status(
                e,
                rest,
            ));
        }
    }
    let (st, j6) = match parse_status(s, j5) {
        Some(p) => p,
        None => {
            return None;
        },
    };
    proof {
        assert forall|e: EntryView, rest: Seq<u8>| #[trigger]
            entry_premise(s@, i as int, e, rest) implies (st == e.status && j6 as int == j5
            + status_token(e.status).len() + 1 && s@.skip(j6 as int) == tail_after_status(e, rest)
            && j6 + lit_created().len() <= s@.len() && s@.subrange(
            j6 as int,
            j6 + lit_created().len(),
        ) == lit_created()) by {
            assert(status_premise(s@, j5 as int, e.status, tail_after_status(e, rest)));
            assert(s@.skip(j5 as int).len() == s@.len() - j5);
            assert(Some((st, j6)) == Some(
                (e.status, (j5 + status_token(e.status).len() + 1) as usize),
            ));
            assert(tail_status(e, rest) =~= (status_token(e.status) + seq![0x22u8])
                + tail_after_status(e, rest));
            lemma_skip_concat(
                s@,
                j5 as int,
                status_token(e.status) + seq![0x22u8],
                tail_after_status(e, rest),
            );
            lemma_prefix_subrange(s@, j6 as int, lit_created(), tail_created(e, rest));
        }
    }
    let j7 = match eat_slice(s, j6, l4.as_slice()) {
        Some(j) => j,
        None => {
            return None;
        },
    };
    proof {
        assert forall|e: EntryView, rest: Seq<u8>| #[trigger]
            entry_premise(s@, i as int, e, rest) implies (j7 as int == j6 + lit_created().len()
            && i64_premise(s@, j7 as int, e.created_at, tail_after_created(e, rest))) by {
            lemma_skip_concat(s@, j6 as int, lit_created(), tail_created(e, rest));
            assert(tail_after_created(e, rest)[0] == 0x2cu8);
        }
    }
    let (cav, j8) = match parse_i64(s, j7) {
        Some(p) => p,
        None => {
            return None;
        },
    };
    proof {
        assert forall|e: EntryView, rest: Seq<u8>| #[trigger]
            entry_premise(s@, i as int, e, rest) implies (cav as int == e.created_at && j8 as int
            == j7 + enc_i64(e.created_at).len() && s@.skip(j8 as int) == tail_after_created(e, rest)
            && j8 + lit_deadline().len() <= s@.len() && s@.subrange(
            j8 as int,
            j8 + lit_deadline().len(),
        ) == lit_deadline()) by {
            assert(i64_premise(s@, j7 as int, e.created_at, tail_after_created(e, rest)));
            assert(s@.skip(j7 as int).len() == s@.len() - j7);
            assert(Some((cav, j8)) == Some(
                (((e.created_at) as i64), (j7 + enc_i64(e.created_at).len()) as usize),
            ));
            assert(cav == (e.created_at) as i64);
            lemma_skip_concat(s@, j7 as int, enc_i64(e.created_at), tail_after_created(e, rest));
            lemma_prefix_subrange(s@, j8 as int, lit_deadline(), tail_deadline(e, rest));
        }
    }
    let j9 = match eat_slice(s, j8, l5.as_slice()) {
        Some(j) => j,
        None => {
            return None;
        },
    };
    proof {
        assert forall|e: EntryView, rest: Seq<u8>| #[trigger]
            entry_premise(s@, i as int, e, rest) implies (j9 as int == j8 + lit_deadline().len()
            && opt_premise(s@, j9 as int, e.deadline, tail_end(rest))) by {
            lemma_skip_concat(s@, j8 as int, lit_deadline(), tail_deadline(e, rest));
            assert(tail_end(rest)[0] == 0x7du8);
        }
    }
    let (dlv, j10) = match parse_opt_ts(s, j9) {
        Some(p) => p,
        None => {
            return None;
        },
    };
    proof {
        assert forall|e: EntryView, rest: Seq<u8>| #[trigger]
            entry_premise(s@, i as int, e, rest) implies (opt_ts_view(dlv) == e.deadline
            && j10 as int == j9 + enc_opt_ts(e.deadline).len() && j10 + 1 <= s@.len()
            && s@.subrange(j10 as int, j10 as int + 1) == seq![0x7du8]) by {
            lemma_skip_concat(s@, j9 as int, enc_opt_ts(e.deadline), tail_end(rest));
            lemma_prefix_subrange(s@, j10 as int, seq![0x7du8], rest);
        }
    }
    let j11 = match eat_slice(s, j10, l6.as_slice()) {
        Some(j) => j,
        None => {
            return None;
        },
    };
    let ent = Entry { id: id32, name: namev, status: st, created_at: cav, deadline: dlv };
    proof {
        assert forall|e: EntryView, rest: Seq<u8>| #[trigger]
            entry_premise(s@, i as int, e, rest) implies (ent@ == e && j11 as int == i + enc_entry(
            e,
        ).len()) by {
            assert(ent@.deadline == e.deadline);
            assert(ent@ == e);
            assert(enc_entry(e).len() == lit_id().len() + enc_i64(e.id).len() + lit_name().len()
                + enc_name(e.name).len() + 1 + lit_status().len() + status_token(e.status).len()
                + 1 + lit_created().len() + enc_i64(e.created_at).len() + lit_deadline().len()
                + enc_opt_ts(e.deadline).len() + 1);
        }
    }
    Some((ent, j11))
}


/// Field bounds hold of every entry.
pub open spec fn all_bounds(es: Seq<EntryView>) -> bool {
    forall|k: int| 0 <= k < es.len() ==> entry_bounds(#[trigger] es[k])
}

/// The run of entry objects, the closing bracket, then anything.
pub open spec fn entries_premise(s: Seq<u8>, i: int, es: Seq<EntryView>, rest: Seq<u8>) -> bool {
    &&& s.skip(i) == enc_entries(es) + seq![0x5du8] + rest
    &&& all_bounds(es)
}

/// What follows one entry inside the run.
pub open spec fn tail_entries(es: Seq<EntryView>, k: int, rest: Seq<u8>) -> Seq<u8> {
    if k < es.len() {
        seq![0x2cu8] + enc_entries(es.skip(k)) + seq![0x5du8] + rest
    } else {
        seq![0x5du8] + rest
    }
}

/// Read the entry array up to and past its closing bracket.
#[verifier::loop_isolation(false)]
#[verifier::rlimit(100)]
fn parse_entries(s: &[u8], i: usize) -> (r: Option<(Vec<Entry>, usize)>)
    requires
        i <= s@.len(),
    ensures
        r matches Some(p) ==> i < p.1 <= s@.len(),
        forall|es: Seq<EntryView>, rest: Seq<u8>| #[trigger]
            entries_premise(s@, i as int, es, rest) ==> (r is Some && (r matches Some(p)
                ==> p.0@.map_values(|x: Entry| x@) == es && p.1 as int == i + enc_entries(es).len()
                + 1)),
{
    let len = s.len();
    let mut out: Vec<Entry> = Vec::new();
    if i < len && s[i] == 0x5d {
        proof {
            assert forall|es: Seq<EntryView>, rest: Seq<u8>| #[trigger]
                entries_premise(s@, i as int, es, rest) implies (es.len() == 0
                && out@.map_values(|x: Entry| x@) == es && enc_entries(es).len() == 0) by {
                assert(s@.skip(i as int)[0] == s@[i as int]);
                if es.len() > 0 {
                    assert(enc_entries(es)[0] == enc_entry(es[0])[0]);
                    assert(enc_entry(es[0])[0] == lit_id()[0]);
                    assert((enc_entries(es) + seq![0x5du8] + rest)[0] == enc_entries(es)[0]);
                    assert(false);
                }
                assert(out@.map_values(|x: Entry| x@) =~= es);
            }
        }
        return Some((out, i + 1));
    }
    let mut j = i;
    proof {
        assert forall|es: Seq<EntryView>, rest: Seq<u8>| #[trigger]
            entries_premise(s@, i as int, es, rest) implies (out@.len() < es.len()
            && out@.map_values(|x: Entry| x@) == es.take(out@.len() as int) && s@.skip(j as int)
            == enc_entries(es.skip(out@.len() as int)) + seq![0x5du8] + rest) by {
            assert(s@.skip(i as int).len() == s@.len() - i);
            if es.len() == 0 {
                assert(enc_entries(es).len() == 0);
                assert((enc_entries(es) + seq![0x5du8] + rest)[0] == 0x5du8);
                assert(s@.skip(i as int)[0] == s@[i as int]);
                assert(false);
            }
            assert(out@.map_values(|x: Entry| x@) =~= es.take(0));
            assert(es.skip(0) =~= es);
        }
    }
    loop
        invariant
            i <= j <= len,
            len == s@.len(),
            forall|es: Seq<EntryView>, rest: Seq<u8>| #[trigger]
                entries_premise(s@, i as int, es, rest) ==> (out@.len() < es.len()
                    && out@.map_values(|x: Entry| x@) == es.take(out@.len() as int) && s@.skip(
                    j as int,
                ) == enc_entries(es.skip(out@.len() as int)) + seq![0x5du8] + rest),
        decreases len - j,
    {
        let ghost k = out@.len() as int;
        proof {
            assert forall|es: Seq<EntryView>, rest: Seq<u8>| #[trigger]
                entries_premise(s@, i as int, es, rest) implies entry_premise(
                s@,
                j as int,
                es[k],
                tail_entries(es, k + 1, rest),
            ) by {
                let sk = es.skip(k);
                assert(sk.len() == es.len() - k >= 1);
                assert(sk[0] == es[k]);
                if sk.len() == 1 {
                    assert(enc_entries(sk) == enc_entry(es[k]));
                    assert(enc_entries(sk) + seq![0x5du8] + rest =~= enc_entry(es[k])
                        + tail_entries(es, k + 1, rest));
                } else {
                    assert(sk.drop_first() =~= es.skip(k + 1));
                    assert(enc_entries(sk) == enc_entry(sk[0]) + seq![0x2cu8] + enc_entries(
                        es.skip(k + 1),
                    ));
                    assert(enc_entries(sk) + seq![0x5du8] + rest =~= enc_entry(es[k])
                        + tail_entries(es, k + 1, rest));
                }
            }
        }
        let (ent, j2) = match parse_entry(s, j) {
            Some(p) => p,
            None => {
                return None;
            },
        };
        proof {
            assert forall|es: Seq<EntryView>, rest: Seq<u8>| #[trigger]
                entries_premise(s@, i as int, es, rest) implies (ent@ == es[k] && j2 as int == j
                + enc_entry(es[k]).len() && s@.skip(j2 as int) == tail_entries(es, k + 1, rest)) by {
                assert(entry_premise(s@, j as int, es[k], tail_entries(es, k + 1, rest)));
                lemma_skip_concat(s@, j as int, enc_entry(es[k]), tail_entries(es, k + 1, rest));
            }
        }
        out.push(ent);
        proof {
            assert forall|es: Seq<EntryView>, rest: Seq<u8>| #[trigger]
                entries_premise(s@, i as int, es, rest) implies (out@.len() <= es.len()
                && out@.map_values(|x: Entry| x@) == es.take(k + 1)) by {
                assert(out@.map_values(|x: Entry| x@) =~= es.take(k + 1));
            }
        }
        if j2 < len && s[j2] == 0x2c {
            proof {
                assert forall|es: Seq<EntryView>, rest: Seq<u8>| #[trigger]
                    entries_premise(s@, i as int, es, rest) implies (out@.len() < es.len()
                    && s@.skip(j2 + 1) == enc_entries(es.skip(k + 1)) + seq![0x5du8] + rest) by {
                    assert(s@.skip(j2 as int)[0] == s@[j2 as int]);
                    if k + 1 == es.len() {
                        assert(tail_entries(es, k + 1, rest)[0] == 0x5du8);
                        assert(false);
                    }
                    assert(tail_entries(es, k + 1, rest) =~= seq![0x2cu8] + (enc_entries(
                        es.skip(k + 1),
                    ) + seq![0x5du8] + rest));
                    lemma_skip_concat(
                        s@,
                        j2 as int,
                        seq![0x2cu8],
                        enc_entries(es.skip(k + 1)) + seq![0x5du8] + rest,
                    );
                }
            }
            j = j2 + 1;
        } else if j2 < len && s[j2] == 0x5d {
            proof {
                assert forall|es: Seq<EntryView>, rest: Seq<u8>| #[trigger]
                    entries_premise(s@, i as int, es, rest) implies (out@.map_values(
                    |x: Entry| x@,
                ) == es && j2 + 1 == i + enc_entries(es).len() + 1) by {
                    assert(s@.skip(j2 as int)[0] == s@[j2 as int]);
                    if k + 1 < es.len() {
                        assert(tail_entries(es, k + 1, rest)[0] == 0x2cu8);
                        assert(false);
                    }
                    assert(es.take(k + 1) =~= es);
                    assert(s@.skip(i as int).len() == s@.len() - i);
                    assert(s@.skip(j2 as int).len() == s@.len() - j2);
                }
            }
            return Some((out, j2 + 1));
        } else {
            proof {
                assert forall|es: Seq<EntryView>, rest: Seq<u8>| !entries_premise(
                    s@,
                    i as int,
                    es,
                    rest,
                ) by {
                    if entries_premise(s@, i as int, es, rest) {
                        assert(s@.skip(j2 as int).len() == s@.len() - j2);
                        assert(s@.skip(j2 as int)[0] == s@[j2 as int]);
                        if k + 1 < es.len() {
                            assert(tail_entries(es, k + 1, rest)[0] == 0x2cu8);
                        } else {
                            assert(tail_entries(es, k + 1, rest)[0] == 0x5du8);
                        }
                        assert(false);
                    }
                }
            }
            return None;
        }
    }
}

/// Decide the aggregate invariant.
#[verifier::loop_isolation(false)]
#[verifier::rlimit(50)]
fn check_wf(list: &List) -> (b: bool)
    ensures
        b == wf(list@),
{
    let ghost es = list@.entries;
    if list.id_tracker < 0 {
        return false;
    }
    let mut i: usize = 0;
    while i < list.entries.len()
        invariant
            i <= es.len(),
            es == list@.entries,
            es.len() == list.entries.len(),
            forall|k: int| 0 <= k < i ==> 0 <= (#[trigger] es[k]).id < list@.next_id,
            forall|a: int, b: int|
                0 <= a < b < i ==> (#[trigger] es[a]).id < (#[trigger] es[b]).id,
        decreases es.len() - i,
    {
        let e_id = list.entries[i].id;
        proof {
            assert(es[i as int] == list.entries@[i as int]@);
        }
        if e_id < 0 || e_id >= list.id_tracker {
            return false;
        }
        if i > 0 && list.entries[i - 1].id >= e_id {
            proof {
                assert(es[i - 1].id >= es[i as int].id);
            }
            return false;
        }
        proof {
            assert forall|a: int| 0 <= a < i implies (#[trigger] es[a]).id < es[i as int].id by {
                if a < i - 1 {
                    assert(es[a].id < es[i - 1].id);
                }
            }
        }
        i = i + 1;
    }
    proof {
        assert forall|k: int| 0 <= k < es.len() implies entry_bounds(#[trigger] es[k]) by {
            assert(es[k] == list.entries@[k]@);
        }
    }
    true
}

/// Deserialize a task list: the exact serialized form of any well-formed
/// list state is accepted and reproduces that state; anything accepted is
/// well-formed; what cannot be read back is reported as corrupt.
#[verifier::rlimit(100)]
pub fn decode_list(s: &[u8]) -> (r: Result<List, TaskError>)
    ensures
        r matches Ok(x) ==> wf(x@),
        r is Err ==> r == Err::<List, TaskError>(TaskError::Corrupt),
        forall|l: ListView| #[trigger] enc_list(l) == s@ && wf(l) ==> (r is Ok && (r matches Ok(x)
            ==> x@ == l)),
{
    let header: [u8; 12] = [
        0x7b,
        0x22,
        0x65,
        0x6e,
        0x74,
        0x72,
        0x69,
        0x65,
        0x73,
        0x22,
        0x3a,
        0x5b,
    ];
    let nextlit: [u8; 11] = [0x2c, 0x22, 0x6e, 0x65, 0x78, 0x74, 0x5f, 0x69, 0x64, 0x22, 0x3a];
    let brace: [u8; 1] = [0x7d];
    let _slen = s.len();
    proof {
        assert(header@ =~= lit_header());
        assert(nextlit@ =~= lit_next());
        assert(brace@ =~= seq![0x7du8]);
        assert forall|l: ListView| #[trigger] enc_list(l) == s@ && wf(l) implies (s@.skip(0)
            == lit_header() + (enc_entries(l.entries) + seq![0x5du8] + (lit_next() + (enc_i64(
            l.next_id,
        ) + seq![0x7du8])))) by {
            assert(s@.skip(0) =~= s@);
            assert(s@ =~= lit_header() + (enc_entries(l.entries) + seq![0x5du8] + (lit_next() + (
            enc_i64(l.next_id) + seq![0x7du8]))));
        }
        assert forall|l: ListView| #[trigger] enc_list(l) == s@ && wf(l) implies (lit_header().len()
            <= s@.len() && s@.subrange(0, lit_header().len() as int) == lit_header()) by {
            lemma_prefix_subrange(
                s@,
                0,
                lit_header(),
                enc_entries(l.entries) + seq![0x5du8] + (lit_next() + (enc_i64(l.next_id)
                    + seq![0x7du8])),
            );
        }
    }
    let j1 = match eat_slice(s, 0, header.as_slice()) {
        Some(j) => j,
        None => {
            return Err(TaskError::Corrupt);
        },
    };
    proof {
        assert forall|l: ListView| #[trigger] enc_list(l) == s@ && wf(l) implies (j1 as int
            == lit_header().len() && entries_premise(
            s@,
            j1 as int,
            l.entries,
            lit_next() + (enc_i64(l.next_id) + seq![0x7du8]),
        )) by {
            lemma_skip_concat(
                s@,
                0,
                lit_header(),
                enc_entries(l.entries) + seq![0x5du8] + (lit_next() + (enc_i64(l.next_id)
                    + seq![0x7du8])),
            );
            assert(enc_entries(l.entries) + seq![0x5du8] + (lit_next() + (enc_i64(l.next_id)
                + seq![0x7du8])) =~= enc_entries(l.entries) + seq![0x5du8] + (lit_next() + (enc_i64(
            l.next_id,
            ) + seq![0x7du8])));
            assert forall|k: int| 0 <= k < l.entries.len() implies entry_bounds(
                #[trigger] l.entries[k],
            ) by {}
        }
    }
    let (entvec, j2) = match parse_entries(s, j1) {
        Some(p) => p,
        None => {
            return Err(TaskError::Corrupt);
        },
    };
    proof {
        assert forall|l: ListView| #[trigger] enc_list(l) == s@ && wf(l) implies (entvec@.map_values(
            |x: Entry| x@,
        ) == l.entries && j2 as int == j1 + enc_entries(l.entries).len() + 1 && s@.skip(j2 as int)
            == lit_next() + (enc_i64(l.next_id) + seq![0x7du8]) && j2 + lit_next().len() <= s@.len()
            && s@.subrange(j2 as int, j2 + lit_next().len()) == lit_next()) by {
            assert(entries_premise(
                s@,
                j1 as int,
                l.entries,
                lit_next() + (enc_i64(l.next_id) + seq![0x7du8]),
            ));
            assert(enc_entries(l.entries) + seq![0x5du8] + (lit_next() + (enc_i64(l.next_id)
                + seq![0x7du8])) =~= (enc_entries(l.entries) + seq![0x5du8]) + (lit_next() + (
            enc_i64(l.next_id) + seq![0x7du8])));
            lemma_skip_concat(
                s@,
                j1 as int,
                enc_entries(l.entries) + seq![0x5du8],
                lit_next() + (enc_i64(l.next_id) + seq![0x7du8]),
            );
            lemma_prefix_subrange(
                s@,
                j2 as int,
                lit_next(),
                enc_i64(l.next_id) + seq![0x7du8],
            );
        }
    }
    let j3 = match eat_slice(s, j2, nextlit.as_slice()) {
        Some(j) => j,
        None => {
            return Err(TaskError::Corrupt);
        },
    };
    proof {
        assert forall|l: ListView| #[trigger] enc_list(l) == s@ && wf(l) implies (j3 as int == j2
            + lit_next().len() && i64_premise(s@, j3 as int, l.next_id, seq![0x7du8])) by {
            lemma_skip_concat(s@, j2 as int, lit_next(), enc_i64(l.next_id) + seq![0x7du8]);
        }
    }
    let (nid, j4) = match parse_i64(s, j3) {
        Some(p) => p,
        None => {
            return Err(TaskError::Corrupt);
        },
    };
    if nid < 0 || nid > 2147483647 {
        proof {
            assert forall|l: ListView| !(#[trigger] enc_list(l) == s@ && wf(l)) by {
                if enc_list(l) == s@ && wf(l) {
                    assert(nid == (l.next_id) as i64);
                }
            }
        }
        return Err(TaskError::Corrupt);
    }
    proof {
        assert forall|l: ListView| #[trigger] enc_list(l) == s@ && wf(l) implies (nid as int
            == l.next_id && j4 as int == j3 + enc_i64(l.next_id).len() && j4 + 1 <= s@.len()
            && s@.subrange(j4 as int, j4 as int + 1) == seq![0x7du8] && j4 + 1 == s@.len()) by {
            assert(i64_premise(s@, j3 as int, l.next_id, seq![0x7du8]));
            assert(s@.skip(j3 as int).len() == s@.len() - j3);
            assert(Some((nid, j4)) == Some(
                (((l.next_id) as i64), (j3 + enc_i64(l.next_id).len()) as usize),
            ));
            lemma_skip_concat(s@, j3 as int, enc_i64(l.next_id), seq![0x7du8]);
            lemma_prefix_subrange(s@, j4 as int, seq![0x7du8], Seq::<u8>::empty());
            assert(seq![0x7du8] + Seq::<u8>::empty() =~= seq![0x7du8]);
            assert(s@.skip(j4 as int).len() == s@.len() - j4);
            assert(s@.skip(j4 as int) =~= seq![0x7du8]);
        }
    }
    let j5 = match eat_slice(s, j4, brace.as_slice()) {
        Some(j) => j,
        None => {
            return Err(TaskError::Corrupt);
        },
    };
    if j5 != s.len() {
        proof {
            assert forall|l: ListView| !(#[trigger] enc_list(l) == s@ && wf(l)) by {}
        }
        return Err(TaskError::Corrupt);
    }
    let list = List { entries: entvec, id_tracker: nid as i32 };
    if check_wf(&list) {
        proof {
            assert forall|l: ListView| #[trigger] enc_list(l) == s@ && wf(l) implies list@ == l by {
                assert(list@.entries =~= l.entries);
            }
        }
        Ok(list)
    } else {
        proof {
            assert forall|l: ListView| !(#[trigger] enc_list(l) == s@ && wf(l)) by {
                if enc_list(l) == s@ && wf(l) {
                    assert(list@.entries =~= l.entries);
                    assert(list@ == l);
                }
            }
        }
        Err(TaskError::Corrupt)
    }
}


} // verus!
