use vstd::prelude::*;

use crate::model::{distinct_items, reg_wf, RegModel};
use crate::registry::{entries_model, Entry, Registry};
use crate::text::{
    all_digits, dec_of, dec_val, find_char, fmt_u64, is_digit_char, lemma_dec_of_digits,
    lemma_dec_val_of, lemma_find_char, lemma_find_char_at, parse_u64, str_eq, views_of,
};

verus! {

// ---------------------------------------------------------------------------
// The persisted document: a length-prefixed text. First the number of
// entries; then, per entry, the conversation key (as its unsigned 64-bit
// image) and the number of items; then, per item, its length in characters
// and the characters themselves. Every number and every item ends with a
// newline, and item characters are read by count, so items may hold any
// character.
// ---------------------------------------------------------------------------

pub open spec fn nl() -> Seq<char> {
    seq!['\n']
}

pub open spec fn enc_nat(n: nat) -> Seq<char> {
    dec_of(n) + nl()
}

pub open spec fn enc_item(x: Seq<char>) -> Seq<char> {
    enc_nat(x.len()) + x + nl()
}

pub open spec fn enc_items(l: Seq<Seq<char>>) -> Seq<char>
    decreases l.len(),
{
    if l.len() == 0 {
        Seq::empty()
    } else {
        enc_item(l[0]) + enc_items(l.drop_first())
    }
}

pub open spec fn enc_entry(p: (i64, Seq<Seq<char>>)) -> Seq<char> {
    enc_nat((p.0 as u64) as nat) + enc_nat(p.1.len()) + enc_items(p.1)
}

pub open spec fn enc_entries(m: RegModel) -> Seq<char>
    decreases m.len(),
{
    if m.len() == 0 {
        Seq::empty()
    } else {
        enc_entry(m[0]) + enc_entries(m.drop_first())
    }
}

/// The persisted document of registry model `m`.
pub open spec fn enc_model(m: RegModel) -> Seq<char> {
    enc_nat(m.len()) + enc_entries(m)
}

// ---------------------------------------------------------------------------
// Reading the document back
// ---------------------------------------------------------------------------

/// One number: digits up to a newline, value at most `u64::MAX`.
pub open spec fn d_nat(s: Seq<char>) -> Option<(nat, Seq<char>)> {
    let i = find_char(s, '\n');
    if i < 1 {
        Option::None
    } else {
        let ds = s.subrange(0, i);
        if all_digits(ds) && dec_val(ds) <= u64::MAX as nat {
            Option::Some((dec_val(ds), s.subrange(i + 1, s.len() as int)))
        } else {
            Option::None
        }
    }
}

/// One item: its length, then that many characters, then a newline.
pub open spec fn d_item(s: Seq<char>) -> Option<(Seq<char>, Seq<char>)> {
    match d_nat(s) {
        Option::None => Option::None,
        Option::Some((n, r)) => {
            if r.len() < n + 1 {
                Option::None
            } else if r[n as int] != '\n' {
                Option::None
            } else {
                Option::Some((r.subrange(0, n as int), r.subrange(n as int + 1, r.len() as int)))
            }
        },
    }
}

pub open spec fn d_items(s: Seq<char>, count: nat) -> Option<(Seq<Seq<char>>, Seq<char>)>
    decreases count,
{
    if count == 0 {
        Option::Some((Seq::empty(), s))
    } else {
        match d_item(s) {
            Option::None => Option::None,
            Option::Some((x, r)) => {
                match d_items(r, (count - 1) as nat) {
                    Option::None => Option::None,
                    Option::Some((xs, r2)) => Option::Some((seq![x] + xs, r2)),
                }
            },
        }
    }
}

pub open spec fn d_entry(s: Seq<char>) -> Option<((i64, Seq<Seq<char>>), Seq<char>)> {
    match d_nat(s) {
        Option::None => Option::None,
        Option::Some((kv, r)) => {
            match d_nat(r) {
                Option::None => Option::None,
                Option::Some((cnt, r2)) => {
                    match d_items(r2, cnt) {
                        Option::None => Option::None,
                        Option::Some((xs, r3)) => Option::Some((((kv as u64) as i64, xs), r3)),
                    }
                },
            }
        },
    }
}

pub open spec fn d_entries(s: Seq<char>, count: nat) -> Option<(RegModel, Seq<char>)>
    decreases count,
{
    if count == 0 {
        Option::Some((Seq::empty(), s))
    } else {
        match d_entry(s) {
            Option::None => Option::None,
            Option::Some((p, r)) => {
                match d_entries(r, (count - 1) as nat) {
                    Option::None => Option::None,
                    Option::Some((m, r2)) => Option::Some((seq![p] + m, r2)),
                }
            },
        }
    }
}

/// The whole document: an entry count, the entries, and nothing after them.
pub open spec fn decode_spec(s: Seq<char>) -> Option<RegModel> {
    match d_nat(s) {
        Option::None => Option::None,
        Option::Some((cnt, r)) => {
            match d_entries(r, cnt) {
                Option::None => Option::None,
                Option::Some((m, r2)) => {
                    if r2.len() == 0 {
                        Option::Some(m)
                    } else {
                        Option::None
                    }
                },
            }
        },
    }
}

// ---------------------------------------------------------------------------
// The round trip
// ---------------------------------------------------------------------------

/// A model whose counts and lengths the document's numbers can carry. Every
/// registry held in memory is bounded, since its vectors are.
pub open spec fn bounded(m: RegModel) -> bool {
    &&& m.len() <= u64::MAX as nat
    &&& forall|k: int| 0 <= k < m.len() ==> (#[trigger] m[k].1).len() <= u64::MAX as nat
    &&& forall|k: int, i: int|
        0 <= k < m.len() && 0 <= i < m[k].1.len() ==> (#[trigger] m[k].1[i]).len()
            <= u64::MAX as nat
}

proof fn lemma_i64_u64_round(k: i64)
    ensures
        ((k as u64) as i64) == k,
{
    assert(((k as u64) as i64) == k) by (bit_vector);
}

proof fn lemma_d_nat_enc(n: nat, rest: Seq<char>)
    requires
        n <= u64::MAX as nat,
    ensures
        d_nat(enc_nat(n) + rest) == Option::Some((n, rest)),
{
    let d = dec_of(n);
    lemma_dec_of_digits(n);
    lemma_dec_val_of(n);
    let s = enc_nat(n) + rest;
    assert(s.len() == d.len() + 1 + rest.len());
    assert forall|j: int| 0 <= j < d.len() implies s[j] == d[j] by {
        assert((d + nl())[j] == d[j]);
    }
    assert(s[d.len() as int] == '\n') by {
        assert((d + nl())[d.len() as int] == '\n');
    }
    assert forall|j: int| 0 <= j < d.len() implies s[j] != '\n' by {
        assert(is_digit_char(d[j]));
        assert(('\n' as u32) == 10);
    }
    lemma_find_char_at(s, '\n', d.len() as int);
    assert(s.subrange(0, d.len() as int) =~= d);
    assert(s.subrange(d.len() as int + 1, s.len() as int) =~= rest);
}

proof fn lemma_d_item_enc(x: Seq<char>, rest: Seq<char>)
    requires
        x.len() <= u64::MAX as nat,
    ensures
        d_item(enc_item(x) + rest) == Option::Some((x, rest)),
{
    let tail = x + nl() + rest;
    assert(enc_item(x) + rest =~= enc_nat(x.len()) + tail);
    lemma_d_nat_enc(x.len(), tail);
    assert(tail.len() >= x.len() + 1);
    assert(tail[x.len() as int] == '\n') by {
        assert((x + nl())[x.len() as int] == '\n');
        assert(tail[x.len() as int] == (x + nl())[x.len() as int]);
    }
    assert(tail.subrange(0, x.len() as int) =~= x);
    assert(tail.subrange(x.len() as int + 1, tail.len() as int) =~= rest);
}

proof fn lemma_d_items_enc(l: Seq<Seq<char>>, rest: Seq<char>)
    requires
        forall|i: int| 0 <= i < l.len() ==> (#[trigger] l[i]).len() <= u64::MAX as nat,
    ensures
        d_items(enc_items(l) + rest, l.len()) == Option::Some((l, rest)),
    decreases l.len(),
{
    if l.len() == 0 {
        assert(enc_items(l) + rest =~= rest);
        assert(d_items(rest, 0) == Option::Some((Seq::<Seq<char>>::empty(), rest)));
        assert(l =~= Seq::<Seq<char>>::empty());
    } else {
        let lt = l.drop_first();
        let tail = enc_items(lt) + rest;
        assert(enc_items(l) + rest =~= enc_item(l[0]) + tail);
        lemma_d_item_enc(l[0], tail);
        assert forall|i: int| 0 <= i < lt.len() implies (#[trigger] lt[i]).len()
            <= u64::MAX as nat by {
            assert(lt[i] == l[i + 1]);
        }
        lemma_d_items_enc(lt, rest);
        assert(seq![l[0]] + lt =~= l);
    }
}

proof fn lemma_d_entry_enc(p: (i64, Seq<Seq<char>>), rest: Seq<char>)
    requires
        p.1.len() <= u64::MAX as nat,
        forall|i: int| 0 <= i < p.1.len() ==> (#[trigger] p.1[i]).len() <= u64::MAX as nat,
    ensures
        d_entry(enc_entry(p) + rest) == Option::Some((p, rest)),
{
    let kn = (p.0 as u64) as nat;
    let t1 = enc_nat(p.1.len()) + (enc_items(p.1) + rest);
    assert(enc_entry(p) + rest =~= enc_nat(kn) + t1);
    lemma_d_nat_enc(kn, t1);
    lemma_d_nat_enc(p.1.len(), enc_items(p.1) + rest);
    lemma_d_items_enc(p.1, rest);
    lemma_i64_u64_round(p.0);
    assert((kn as u64) == p.0 as u64);
}

proof fn lemma_d_entries_enc(m: RegModel, rest: Seq<char>)
    requires
        forall|k: int| 0 <= k < m.len() ==> (#[trigger] m[k].1).len() <= u64::MAX as nat,
        forall|k: int, i: int|
            0 <= k < m.len() && 0 <= i < m[k].1.len() ==> (#[trigger] m[k].1[i]).len()
                <= u64::MAX as nat,
    ensures
        d_entries(enc_entries(m) + rest, m.len()) == Option::Some((m, rest)),
    decreases m.len(),
{
    if m.len() == 0 {
        assert(enc_entries(m) + rest =~= rest);
        assert(m =~= Seq::<(i64, Seq<Seq<char>>)>::empty());
    } else {
        let mt = m.drop_first();
        let tail = enc_entries(mt) + rest;
        assert(enc_entries(m) + rest =~= enc_entry(m[0]) + tail);
        assert forall|i: int| 0 <= i < m[0].1.len() implies (#[trigger] m[0].1[i]).len()
            <= u64::MAX as nat by {}
        lemma_d_entry_enc(m[0], tail);
        assert forall|k: int| 0 <= k < mt.len() implies (#[trigger] mt[k].1).len()
            <= u64::MAX as nat by {
            assert(mt[k] == m[k + 1]);
        }
        assert forall|k: int, i: int|
            0 <= k < mt.len() && 0 <= i < mt[k].1.len() implies (#[trigger] mt[k].1[i]).len()
                <= u64::MAX as nat by {
            assert(mt[k] == m[k + 1]);
        }
        lemma_d_entries_enc(mt, rest);
        assert(seq![m[0]] + mt =~= m);
    }
}

/// The round-trip law: a document written for model `m` reads back as exactly
/// `m`. Loading a saved registry and saving it again therefore writes a
/// document with the same meaning.
pub proof fn lemma_decode_encode(m: RegModel)
    requires
        bounded(m),
    ensures
        decode_spec(enc_model(m)) == Option::Some(m),
{
    lemma_d_nat_enc(m.len(), enc_entries(m));
    lemma_d_entries_enc(m, Seq::empty());
    assert(enc_entries(m) + Seq::<char>::empty() =~= enc_entries(m));
}

// ---------------------------------------------------------------------------
// Writing the document
// ---------------------------------------------------------------------------

#[verifier::loop_isolation(false)]
fn encode_items_x(items: &Vec<String>) -> (r: String)
    ensures
        r@ == enc_items(views_of(items@)),
{
    let ghost iv = views_of(items@);
    let mut out = String::new();
    let mut j: usize = 0;
    proof {
        assert(iv.skip(0) =~= iv);
        assert(out@ + enc_items(iv) =~= enc_items(iv));
        reveal_strlit("\n");
        assert("\n"@ =~= nl());
    }
    while j < items.len()
        invariant
            0 <= j <= items.len(),
            enc_items(iv) == out@ + enc_items(iv.skip(j as int)),
        decreases items.len() - j,
    {
        let ghost old_out = out@;
        let len = items[j].as_str().unicode_len();
        out.append(fmt_u64(len as u64).as_str());
        out.append("\n");
        out.append(items[j].as_str());
        out.append("\n");
        proof {
            assert(iv.skip(j as int)[0] == iv[j as int]);
            assert(iv.skip(j as int).drop_first() =~= iv.skip(j as int + 1));
            assert(iv[j as int] == items@[j as int]@);
            assert((len as u64) as nat == iv[j as int].len());
            assert(enc_items(iv.skip(j as int)) == enc_item(iv[j as int]) + enc_items(
                iv.skip(j as int + 1),
            ));
            assert(out@ =~= old_out + enc_item(iv[j as int]));
            assert(old_out + (enc_item(iv[j as int]) + enc_items(iv.skip(j as int + 1))) =~= out@
                + enc_items(iv.skip(j as int + 1)));
        }
        j = j + 1;
    }
    proof {
        assert(iv.skip(items.len() as int) =~= Seq::<Seq<char>>::empty());
        assert(out@ + enc_items(Seq::<Seq<char>>::empty()) =~= out@);
    }
    out
}

fn encode_entry_x(e: &Entry) -> (r: String)
    ensures
        r@ == enc_entry((e.chat, views_of(e.items@))),
{
    let mut out = String::new();
    let ku: u64 = #[verifier::truncate] (e.chat as u64);
    out.append(fmt_u64(ku).as_str());
    out.append("\n");
    out.append(fmt_u64(e.items.len() as u64).as_str());
    out.append("\n");
    let body = encode_items_x(&e.items);
    out.append(body.as_str());
    proof {
        reveal_strlit("\n");
        assert("\n"@ =~= nl());
        assert((e.items.len() as u64) as nat == views_of(e.items@).len());
        assert(out@ =~= enc_nat((e.chat as u64) as nat) + enc_nat(views_of(e.items@).len())
            + enc_items(views_of(e.items@)));
    }
    out
}

/// The document for the registry as it stands: what `save` writes.
#[verifier::loop_isolation(false)]
pub fn encode(reg: &Registry) -> (r: String)
    ensures
        r@ == enc_model(reg.model()),
{
    let ghost m = reg.model();
    let mut out = String::new();
    out.append(fmt_u64(reg.entries.len() as u64).as_str());
    out.append("\n");
    proof {
        reveal_strlit("\n");
        assert("\n"@ =~= nl());
        assert((reg.entries.len() as u64) as nat == m.len());
        assert(out@ =~= enc_nat(m.len()));
        assert(m.skip(0) =~= m);
    }
    let mut i: usize = 0;
    while i < reg.entries.len()
        invariant
            0 <= i <= reg.entries.len(),
            enc_model(m) == out@ + enc_entries(m.skip(i as int)),
        decreases reg.entries.len() - i,
    {
        let ghost old_out = out@;
        let piece = encode_entry_x(&reg.entries[i]);
        out.append(piece.as_str());
        proof {
            assert(m.skip(i as int)[0] == m[i as int]);
            assert(m.skip(i as int).drop_first() =~= m.skip(i as int + 1));
            assert(m[i as int] == (reg.entries@[i as int].chat, views_of(
                reg.entries@[i as int].items@,
            )));
            assert(enc_entries(m.skip(i as int)) == enc_entry(m[i as int]) + enc_entries(
                m.skip(i as int + 1),
            ));
            assert(old_out + (enc_entry(m[i as int]) + enc_entries(m.skip(i as int + 1))) =~= out@
                + enc_entries(m.skip(i as int + 1)));
        }
        i = i + 1;
    }
    proof {
        assert(m.skip(reg.entries.len() as int) =~= Seq::<(i64, Seq<Seq<char>>)>::empty());
        assert(out@ + enc_entries(Seq::<(i64, Seq<Seq<char>>)>::empty()) =~= out@);
    }
    out
}

// ---------------------------------------------------------------------------
// Reading the document
// ---------------------------------------------------------------------------

#[verifier::loop_isolation(false)]
fn d_nat_x<'a>(s: &'a str) -> (r: Option<(u64, &'a str)>)
    ensures
        match r {
            Option::Some(p) => d_nat(s@) == Option::Some((p.0 as nat, p.1@)),
            Option::None => d_nat(s@) == Option::<(nat, Seq<char>)>::None,
        },
{
    let n = s.unicode_len();
    let mut i: usize = 0;
    while i < n && s.get_char(i) != '\n'
        invariant
            0 <= i <= n,
            forall|j: int| 0 <= j < i ==> s@[j] != '\n',
        decreases n - i,
    {
        i = i + 1;
    }
    if i == n {
        proof {
            lemma_find_char(s@, '\n');
            assert(find_char(s@, '\n') < 1);
        }
        return None;
    }
    proof {
        lemma_find_char_at(s@, '\n', i as int);
    }
    if i == 0 {
        return None;
    }
    let ds = s.substring_char(0, i);
    let rest = s.substring_char(i + 1, n);
    match parse_u64(ds) {
        Option::Some(v) => {
            proof {
                assert(all_digits(ds@) && dec_val(ds@) <= u64::MAX as nat);
                assert(d_nat(s@) == Option::Some((dec_val(ds@), rest@)));
            }
            Some((v, rest))
        },
        Option::None => {
            proof {
                assert(ds@.len() > 0);
                assert(!(all_digits(ds@) && dec_val(ds@) <= u64::MAX as nat));
            }
            None
        },
    }
}

fn d_item_x<'a>(s: &'a str) -> (r: Option<(String, &'a str)>)
    ensures
        match r {
            Option::Some(p) => d_item(s@) == Option::Some((p.0@, p.1@)),
            Option::None => d_item(s@) == Option::<(Seq<char>, Seq<char>)>::None,
        },
{
    match d_nat_x(s) {
        Option::None => None,
        Option::Some((n, rest)) => {
            let rlen = rest.unicode_len();
            if (rlen as u64) <= n {
                proof {
                    assert(rest@.len() < n as nat + 1);
                }
                return None;
            }
            proof {
                assert(n < rlen as u64);
                assert(n as nat <= usize::MAX as nat);
            }
            let nn: usize = #[verifier::truncate] (n as usize);
            proof {
                assert(nn as nat == n as nat);
            }
            if rest.get_char(nn) != '\n' {
                return None;
            }
            let x = rest.substring_char(0, nn);
            let r2 = rest.substring_char(nn + 1, rlen);
            Some((x.to_owned(), r2))
        },
    }
}

fn d_items_x<'a>(s: &'a str, count: u64) -> (r: Option<(Vec<String>, &'a str)>)
    ensures
        match r {
            Option::Some(p) => d_items(s@, count as nat) == Option::Some((views_of(p.0@), p.1@)),
            Option::None => d_items(s@, count as nat) == Option::<(Seq<Seq<char>>, Seq<char>)>::None,
        },
    decreases count,
{
    if count == 0 {
        let v: Vec<String> = Vec::new();
        proof {
            assert(views_of(v@) =~= Seq::<Seq<char>>::empty());
        }
        return Some((v, s));
    }
    match d_item_x(s) {
        Option::None => None,
        Option::Some((x, r1)) => {
            match d_items_x(r1, count - 1) {
                Option::None => None,
                Option::Some((mut xs, r2)) => {
                    let ghost old_xs = xs@;
                    let ghost xv = x@;
                    xs.insert(0, x);
                    proof {
                        assert(views_of(xs@) =~= seq![xv] + views_of(old_xs));
                    }
                    Some((xs, r2))
                },
            }
        },
    }
}

fn d_entry_x<'a>(s: &'a str) -> (r: Option<(Entry, &'a str)>)
    ensures
        match r {
            Option::Some(p) => d_entry(s@) == Option::Some(
                ((p.0.chat, views_of(p.0.items@)), p.1@),
            ),
            Option::None => d_entry(s@) == Option::<((i64, Seq<Seq<char>>), Seq<char>)>::None,
        },
{
    match d_nat_x(s) {
        Option::None => None,
        Option::Some((kv, r1)) => {
            match d_nat_x(r1) {
                Option::None => None,
                Option::Some((cnt, r2)) => {
                    match d_items_x(r2, cnt) {
                        Option::None => None,
                        Option::Some((items, r3)) => {
                            let chat: i64 = #[verifier::truncate] (kv as i64);
                            proof {
                                assert((kv as nat) as u64 == kv);
                            }
                            Some((Entry { chat, items }, r3))
                        },
                    }
                },
            }
        },
    }
}

fn d_entries_x<'a>(s: &'a str, count: u64) -> (r: Option<(Vec<Entry>, &'a str)>)
    ensures
        match r {
            Option::Some(p) => d_entries(s@, count as nat) == Option::Some(
                (entries_model(p.0@), p.1@),
            ),
            Option::None => d_entries(s@, count as nat) == Option::<(RegModel, Seq<char>)>::None,
        },
    decreases count,
{
    if count == 0 {
        let v: Vec<Entry> = Vec::new();
        proof {
            assert(entries_model(v@) =~= Seq::<(i64, Seq<Seq<char>>)>::empty());
        }
        return Some((v, s));
    }
    match d_entry_x(s) {
        Option::None => None,
        Option::Some((e, r1)) => {
            match d_entries_x(r1, count - 1) {
                Option::None => None,
                Option::Some((mut es, r2)) => {
                    let ghost old_es = es@;
                    let ghost ev = (e.chat, views_of(e.items@));
                    es.insert(0, e);
                    proof {
                        assert(entries_model(es@) =~~= seq![ev] + entries_model(old_es));
                    }
                    Some((es, r2))
                },
            }
        },
    }
}

// ---------------------------------------------------------------------------
// Checking a read registry
// ---------------------------------------------------------------------------

#[verifier::loop_isolation(false)]
fn check_distinct(items: &Vec<String>) -> (r: bool)
    ensures
        r == distinct_items(views_of(items@)),
{
    let ghost iv = views_of(items@);
    let mut i: usize = 0;
    while i < items.len()
        invariant
            0 <= i <= items.len(),
            forall|a: int, b: int| 0 <= a < b < iv.len() && a < i ==> iv[a] != iv[b],
        decreases items.len() - i,
    {
        let mut j: usize = i + 1;
        while j < items.len()
            invariant
                i + 1 <= j <= items.len(),
                forall|b: int| i < b < j ==> iv[i as int] != iv[b],
            decreases items.len() - j,
        {
            if str_eq(items[i].as_str(), items[j].as_str()) {
                proof {
                    assert(iv[i as int] == iv[j as int]);
                    assert(!distinct_items(iv));
                }
                return false;
            }
            j = j + 1;
        }
        i = i + 1;
    }
    true
}

#[verifier::loop_isolation(false)]
fn check_wf(reg: &Registry) -> (r: bool)
    ensures
        r == reg.wf(),
{
    let ghost m = reg.model();
    let n = reg.entries.len();
    let mut i: usize = 0;
    while i < n
        invariant
            0 <= i <= n,
            forall|a: int, b: int| 0 <= a < b < m.len() && a < i ==> m[a].0 != m[b].0,
            forall|k: int| 0 <= k < i ==> distinct_items(#[trigger] m[k].1),
        decreases n - i,
    {
        let mut j: usize = i + 1;
        while j < n
            invariant
                i + 1 <= j <= n,
                forall|b: int| i < b < n && b < j ==> m[i as int].0 != m[b].0,
            decreases n - j,
        {
            if reg.entries[i].chat == reg.entries[j].chat {
                proof {
                    assert(m[i as int].0 == m[j as int].0);
                    assert(!reg_wf(m));
                }
                return false;
            }
            j = j + 1;
        }
        if !check_distinct(&reg.entries[i].items) {
            proof {
                assert(!distinct_items(m[i as int].1));
                assert(!reg_wf(m));
            }
            return false;
        }
        i = i + 1;
    }
    true
}

/// The registry a document describes: what `load` yields. A document that
/// does not read back, or that names a conversation or an item twice, counts
/// as corrupt and yields the empty registry.
pub fn decode(s: &str) -> (r: Registry)
    ensures
        r.wf(),
        ({
            let d = decode_spec(s@);
            match d {
                Option::Some(m) => r.model() == if reg_wf(m) {
                    m
                } else {
                    Seq::<(i64, Seq<Seq<char>>)>::empty()
                },
                Option::None => r.model() == Seq::<(i64, Seq<Seq<char>>)>::empty(),
            }
        }),
{
    match d_nat_x(s) {
        Option::None => Registry::new(),
        Option::Some((cnt, r1)) => {
            match d_entries_x(r1, cnt) {
                Option::None => Registry::new(),
                Option::Some((entries, rest)) => {
                    if !rest.is_empty() {
                        Registry::new()
                    } else {
                        let reg = Registry { entries };
                        if check_wf(&reg) {
                            reg
                        } else {
                            Registry::new()
                        }
                    }
                },
            }
        },
    }
}

} // verus!
