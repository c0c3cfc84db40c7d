//! The storage codec. A collection is kept on disk as one human-readable
//! text: an array of records, each holding the task's identifier under the
//! key `id` and its text under the key `description`, with quotes and
//! backslashes in the text escaped by a backslash.
//!
//! The writer produces exactly the canonical text `encode` describes. The
//! reader accepts canonical text and gives back the collection it encodes;
//! anything it accepts re-encodes to the very characters that were read, so
//! loading and saving back never alters a stored document.

use vstd::prelude::*;

use crate::numbers::scan_u32;
use crate::numbers::spec_dec;
use crate::numbers::u32_to_chars;
use crate::task::Task;
use crate::task::TaskView;
use crate::task::views;
use crate::text::chars_vec;
use crate::text::string_from_chars;

verus! {

/// The opening of a record, up to the identifier's digits.
pub open spec fn lit_obj_id() -> Seq<char> {
    seq!['{', '"', 'i', 'd', '"', ':']
}

/// The middle of a record: from after the digits to the opening quote of the
/// description.
pub open spec fn lit_desc() -> Seq<char> {
    seq![',', '"', 'd', 'e', 's', 'c', 'r', 'i', 'p', 't', 'i', 'o', 'n', '"', ':', '"']
}

/// The end of a record: the description's closing quote and the brace.
pub open spec fn lit_close() -> Seq<char> {
    seq!['"', '}']
}

/// How one character of a description is written: quotes and backslashes
/// take a leading backslash, every other character stands as itself.
pub open spec fn esc_char(c: char) -> Seq<char> {
    if c == '"' || c == '\\' {
        seq!['\\', c]
    } else {
        seq![c]
    }
}

/// A description as it is written inside its quotes.
pub open spec fn escape(s: Seq<char>) -> Seq<char>
    decreases s.len(),
{
    if s.len() == 0 {
        Seq::empty()
    } else {
        escape(s.drop_last()) + esc_char(s.last())
    }
}

/// `escape` laid out from the front: the first character's escape, then the
/// escape of the rest.
pub proof fn lemma_escape_front(s: Seq<char>)
    requires
        s.len() > 0,
    ensures
        escape(s) == esc_char(s[0]) + escape(s.drop_first()),
    decreases s.len(),
{
    if s.len() == 1 {
        assert(s.drop_last() =~= Seq::<char>::empty());
        assert(s.drop_first() =~= Seq::<char>::empty());
        assert(s.last() == s[0]);
        assert(escape(s) =~= esc_char(s[0]) + escape(s.drop_first()));
    } else {
        let dl = s.drop_last();
        lemma_escape_front(dl);
        let tail = s.drop_first();
        assert(dl[0] == s[0]);
        assert(tail.drop_last() =~= dl.drop_first());
        assert(tail.last() == s.last());
        assert(escape(tail) == escape(dl.drop_first()) + esc_char(s.last()));
        assert(escape(s) == escape(dl) + esc_char(s.last()));
        assert(escape(dl) == esc_char(s[0]) + escape(dl.drop_first()));
        assert(escape(s) =~= esc_char(s[0]) + escape(tail));
    }
}

/// A stretch of text that reads as an escaped description closed by its
/// quote: the escape of `d`, then one quote, from `start` to `end`.
pub open spec fn closes_at(s: Seq<char>, start: int, end: int, d: Seq<char>) -> bool {
    &&& 0 <= start <= end <= s.len()
    &&& s.subrange(start, end) == escape(d) + seq!['"']
}

/// One record as it is written.
pub open spec fn enc_record(t: TaskView) -> Seq<char> {
    lit_obj_id() + spec_dec(t.id as int) + lit_desc() + escape(t.description) + lit_close()
}

/// The records of a collection, separated by commas.
pub open spec fn enc_body(ts: Seq<TaskView>) -> Seq<char>
    decreases ts.len(),
{
    if ts.len() == 0 {
        Seq::empty()
    } else if ts.len() == 1 {
        enc_record(ts[0])
    } else {
        enc_body(ts.drop_last()) + seq![','] + enc_record(ts.last())
    }
}

/// A whole collection as it is written: the records between brackets.
pub open spec fn encode(ts: Seq<TaskView>) -> Seq<char> {
    seq!['['] + enc_body(ts) + seq![']']
}

/// `enc_body` laid out from the front: the first record, then a comma and
/// the remaining records, if any.
pub proof fn lemma_enc_body_front(ts: Seq<TaskView>)
    requires
        ts.len() > 0,
    ensures
        enc_body(ts) == enc_record(ts[0]) + (if ts.len() == 1 {
            Seq::<char>::empty()
        } else {
            seq![','] + enc_body(ts.drop_first())
        }),
    decreases ts.len(),
{
    if ts.len() == 1 {
        assert(enc_body(ts) =~= enc_record(ts[0]) + Seq::<char>::empty());
    } else {
        let dl = ts.drop_last();
        lemma_enc_body_front(dl);
        let tail = ts.drop_first();
        assert(dl[0] == ts[0]);
        assert(tail.drop_last() =~= dl.drop_first());
        assert(tail.last() == ts.last());
        if dl.len() == 1 {
            assert(tail.len() == 1);
            assert(tail[0] == ts.last());
            assert(enc_body(dl) =~= enc_record(ts[0]));
            assert(enc_body(tail) == enc_record(ts.last()));
            assert(enc_body(ts) == enc_body(dl) + seq![','] + enc_record(ts.last()));
            assert(enc_body(ts) =~= enc_record(ts[0]) + (seq![','] + enc_body(tail)));
        } else {
            assert(enc_body(dl) == enc_record(ts[0]) + (seq![','] + enc_body(dl.drop_first())));
            assert(enc_body(tail) == enc_body(tail.drop_last()) + seq![','] + enc_record(
                tail.last(),
            ));
            assert(enc_body(tail) == enc_body(dl.drop_first()) + seq![','] + enc_record(
                ts.last(),
            ));
            assert(enc_body(ts) == enc_body(dl) + seq![','] + enc_record(ts.last()));
            assert(enc_body(ts) =~= enc_record(ts[0]) + (seq![','] + enc_body(tail)));
        }
    }
}

/// One record standing at a known position: the canonical writing of `tv`
/// fills `start` to `end`.
pub open spec fn record_at(s: Seq<char>, start: int, end: int, tv: TaskView) -> bool {
    &&& 0 <= start <= end <= s.len()
    &&& s.subrange(start, end) == enc_record(tv)
}

/// A record at a known position falls apart into its five pieces, each at a
/// known place: the opening literal, the digits, the middle literal, the
/// escaped description with its quote, and the closing brace.
pub proof fn lemma_record_decompose(s: Seq<char>, start: int, end: int, tv: TaskView)
    requires
        record_at(s, start, end, tv),
    ensures
        ({
            let dl = spec_dec(tv.id as int).len() as int;
            &&& end - start == 24 + dl + escape(tv.description).len()
            &&& s.subrange(start, start + 6) == lit_obj_id()
            &&& crate::numbers::dec_run_at(s, start + 6, start + 6 + dl, tv.id)
            &&& s.subrange(start + 6 + dl, start + 22 + dl) == lit_desc()
            &&& closes_at(s, start + 22 + dl, end - 1, tv.description)
            &&& s[end - 1] == '}'
        }),
{
    crate::numbers::lemma_spec_dec_canonical(tv.id as int);
    let seg = s.subrange(start, end);
    let b = spec_dec(tv.id as int);
    let e = escape(tv.description);
    let dl = b.len() as int;
    let el = e.len() as int;
    let cat = lit_obj_id() + b + lit_desc() + e + lit_close();
    assert(seg == cat);
    assert(seg.len() == 6 + dl + 16 + el + 2);
    assert forall|k: int| 0 <= k < end - start implies s[start + k] == cat[k] by {
        assert(seg[k] == s[start + k]);
        assert(seg[k] == cat[k]);
    }
    assert(s.subrange(start, start + 6) =~= lit_obj_id()) by {
        assert forall|k: int| 0 <= k < 6 implies s.subrange(start, start + 6)[k]
            == lit_obj_id()[k] by {
            assert(s[start + k] == cat[k]);
            assert(cat[k] == lit_obj_id()[k]);
        }
    }
    assert(s.subrange(start + 6, start + 6 + dl) =~= b) by {
        assert forall|k: int| 0 <= k < dl implies s.subrange(start + 6, start + 6 + dl)[k]
            == b[k] by {
            assert(s[start + 6 + k] == cat[6 + k]);
            assert(cat[6 + k] == b[k]);
        }
    }
    assert(s.subrange(start + 6 + dl, start + 22 + dl) =~= lit_desc()) by {
        assert forall|k: int| 0 <= k < 16 implies s.subrange(
            start + 6 + dl,
            start + 22 + dl,
        )[k] == lit_desc()[k] by {
            assert(s[start + 6 + dl + k] == cat[6 + dl + k]);
            assert(cat[6 + dl + k] == lit_desc()[k]);
        }
    }
    assert(s.subrange(start + 22 + dl, end - 1) =~= e + seq!['"']) by {
        assert forall|k: int| 0 <= k < el + 1 implies s.subrange(start + 22 + dl, end - 1)[k]
            == (e + seq!['"'])[k] by {
            assert(s[start + 22 + dl + k] == cat[22 + dl + k]);
            if k < el {
                assert(cat[22 + dl + k] == e[k]);
            } else {
                assert(cat[22 + dl + el] == lit_close()[0]);
            }
        }
    }
    assert(s[end - 1] == cat[23 + dl + el]);
    assert(cat[23 + dl + el] == lit_close()[1]);
    assert(s[start + 6 + dl] == cat[6 + dl]);
    assert(cat[6 + dl] == lit_desc()[0]);
    assert(!crate::numbers::is_digit(s[start + 6 + dl])) by {
        assert(lit_desc()[0] == ',');
        assert((',') as int == 44);
    }
}

/// Writes one record's characters onto `out`.
fn push_record(out: &mut Vec<char>, t: &Task)
    ensures
        final(out)@ == old(out)@ + enc_record(t@),
{
    let ghost base = out@;
    out.push('{');
    out.push('"');
    out.push('i');
    out.push('d');
    out.push('"');
    out.push(':');
    proof {
        assert(out@ =~= base + lit_obj_id());
    }
    let ghost base_id = out@;
    let digits = u32_to_chars(t.id);
    let mut q: usize = 0;
    while q < digits.len()
        invariant
            q <= digits@.len(),
            out@ == base_id + digits@.subrange(0, q as int),
        decreases digits@.len() - q,
    {
        out.push(digits[q]);
        q = q + 1;
        proof {
            assert(out@ =~= base_id + digits@.subrange(0, q as int));
        }
    }
    proof {
        assert(digits@.subrange(0, digits@.len() as int) =~= digits@);
        assert(out@ == base_id + spec_dec(t.id as int));
    }
    let ghost base_mid = out@;
    out.push(',');
    out.push('"');
    out.push('d');
    out.push('e');
    out.push('s');
    out.push('c');
    out.push('r');
    out.push('i');
    out.push('p');
    out.push('t');
    out.push('i');
    out.push('o');
    out.push('n');
    out.push('"');
    out.push(':');
    out.push('"');
    proof {
        assert(out@ =~= base_mid + lit_desc());
    }
    let ghost base_desc = out@;
    let ghost desc = t@.description;
    let ds = t.description.as_str();
    let dn = ds.unicode_len();
    let mut j: usize = 0;
    proof {
        assert(escape(desc.subrange(0, 0)) =~= Seq::<char>::empty());
        assert(out@ =~= base_desc + escape(desc.subrange(0, 0)));
    }
    while j < dn
        invariant
            j <= dn,
            dn == ds@.len(),
            ds@ == desc,
            out@ == base_desc + escape(desc.subrange(0, j as int)),
        decreases dn - j,
    {
        let c = ds.get_char(j);
        if c == '"' || c == '\\' {
            out.push('\\');
        }
        out.push(c);
        j = j + 1;
        proof {
            let cur = desc.subrange(0, j as int);
            assert(cur.drop_last() =~= desc.subrange(0, j - 1));
            assert(cur.last() == desc[j - 1]);
            assert(out@ =~= base_desc + escape(cur));
        }
    }
    proof {
        assert(desc.subrange(0, dn as int) =~= desc);
    }
    let ghost base_close = out@;
    out.push('"');
    out.push('}');
    proof {
        assert(out@ =~= base_close + lit_close());
        assert(out@ =~= base + enc_record(t@));
    }
}

/// The characters a collection is saved as: exactly its canonical encoding.
pub fn serialize_tasks(tasks: &Vec<Task>) -> (r: String)
    ensures
        r@ == encode(views(tasks@)),
{
    let ghost vs = views(tasks@);
    let mut out: Vec<char> = Vec::new();
    out.push('[');
    let mut i: usize = 0;
    proof {
        assert(vs.subrange(0, 0) =~= Seq::<TaskView>::empty());
        assert(out@ =~= seq!['['] + enc_body(vs.subrange(0, 0)));
    }
    while i < tasks.len()
        invariant
            i <= tasks@.len(),
            vs == views(tasks@),
            vs.len() == tasks@.len(),
            out@ == seq!['['] + enc_body(vs.subrange(0, i as int)),
        decreases tasks@.len() - i,
    {
        let ghost before = out@;
        if i > 0 {
            out.push(',');
        }
        push_record(&mut out, &tasks[i]);
        i = i + 1;
        proof {
            let cur = vs.subrange(0, i as int);
            assert(cur.drop_last() =~= vs.subrange(0, i - 1));
            assert(cur.last() == vs[i - 1]);
            assert(vs[i - 1] == tasks@[i - 1]@);
            if i == 1 {
                assert(enc_body(cur) == enc_record(cur[0]));
                assert(out@ =~= seq!['['] + enc_body(cur));
            } else {
                assert(enc_body(cur) == enc_body(cur.drop_last()) + seq![','] + enc_record(
                    cur.last(),
                ));
                assert(out@ =~= seq!['['] + enc_body(cur));
            }
        }
    }
    proof {
        assert(vs.subrange(0, tasks@.len() as int) =~= vs);
    }
    out.push(']');
    proof {
        assert(out@ =~= encode(vs));
    }
    string_from_chars(&out)
}

/// Reads a description up to and including its closing quote, undoing the
/// escapes. What was consumed is exactly the escaped form of the result,
/// followed by the quote.
fn parse_string_body(s: &Vec<char>, start: usize) -> (r: Option<(Vec<char>, usize)>)
    requires
        start <= s@.len(),
    ensures
        r matches Some(p) ==> start < p.1 <= s@.len() && s@.subrange(start as int, p.1 as int)
            == escape(p.0@) + seq!['"'],
        forall|dt: Seq<char>, end: int| #[trigger] closes_at(s@, start as int, end, dt) ==> (
        r matches Some(p) && p.0@ == dt && p.1 == end),
{
    let mut d: Vec<char> = Vec::new();
    let mut j: usize = start;
    proof {
        assert(s@.subrange(start as int, start as int) =~= escape(d@));
        assert forall|dt: Seq<char>, end: int| #[trigger] closes_at(
            s@,
            start as int,
            end,
            dt,
        ) implies d@.len() <= dt.len() && dt.subrange(0, d@.len() as int) == d@ && j as int
            <= end && s@.subrange(j as int, end) == escape(
            dt.subrange(d@.len() as int, dt.len() as int),
        ) + seq!['"'] by {
            assert(dt.subrange(0, 0) =~= d@);
            assert(dt.subrange(0, dt.len() as int) =~= dt);
        }
    }
    while j < s.len()
        invariant
            start <= j <= s@.len(),
            s@.subrange(start as int, j as int) == escape(d@),
            d@.len() <= j - start,
            forall|dt: Seq<char>, end: int| #[trigger] closes_at(s@, start as int, end, dt)
                ==> dt.len() >= d@.len() && dt.subrange(0, d@.len() as int) == d@ && j as int
                <= end && s@.subrange(j as int, end) == escape(
                dt.subrange(d@.len() as int, dt.len() as int),
            ) + seq!['"'],
        decreases s@.len() - j,
    {
        let c = s[j];
        if c == '"' {
            proof {
                assert(s@.subrange(start as int, j + 1) =~= escape(d@) + seq!['"']);
                assert forall|dt: Seq<char>, end: int| #[trigger] closes_at(
                    s@,
                    start as int,
                    end,
                    dt,
                ) implies dt == d@ && end == j + 1 by {
                    let rest = dt.subrange(d@.len() as int, dt.len() as int);
                    let rem = s@.subrange(j as int, end);
                    assert(rem == escape(rest) + seq!['"']);
                    if rest.len() > 0 {
                        lemma_escape_front(rest);
                        assert(escape(rest)[0] == esc_char(rest[0])[0]);
                        assert(rem[0] == escape(rest)[0]);
                        assert(rem[0] == s@[j as int]);
                        assert(esc_char(rest[0])[0] != '"');
                    }
                    assert(rest.len() == 0);
                    assert(escape(rest) =~= Seq::<char>::empty());
                    assert(dt.subrange(0, d@.len() as int) =~= dt);
                    assert(rem.len() == 1);
                }
            }
            return Some((d, j + 1));
        } else if c == '\\' {
            proof {
                assert forall|dt: Seq<char>, end: int| #[trigger] closes_at(
                    s@,
                    start as int,
                    end,
                    dt,
                ) implies dt.len() > d@.len() && dt[d@.len() as int] == s@[j + 1] && (dt[
                    d@.len() as int] == '"' || dt[d@.len() as int] == '\\') && end >= j + 3 by {
                    let rest = dt.subrange(d@.len() as int, dt.len() as int);
                    let rem = s@.subrange(j as int, end);
                    assert(rem == escape(rest) + seq!['"']);
                    assert(rem[0] == s@[j as int]);
                    if rest.len() == 0 {
                        assert(escape(rest) =~= Seq::<char>::empty());
                        assert(rem.len() == 1);
                        assert(rem[0] == '"');
                    }
                    assert(rest.len() > 0);
                    lemma_escape_front(rest);
                    assert(escape(rest)[0] == esc_char(rest[0])[0]);
                    assert(rem[0] == escape(rest)[0]);
                    if rest[0] != '"' && rest[0] != '\\' {
                        assert(esc_char(rest[0]) =~= seq![rest[0]]);
                        assert(rem[0] == rest[0]);
                    }
                    assert(rest[0] == '"' || rest[0] == '\\');
                    assert(esc_char(rest[0]) =~= seq!['\\', rest[0]]);
                    assert(escape(rest).len() >= 2);
                    assert(rem.len() >= 3);
                    assert(escape(rest)[1] == rest[0]);
                    assert(rem[1] == escape(rest)[1]);
                    assert(rem[1] == s@[j + 1]);
                    assert(rest[0] == dt[d@.len() as int]);
                }
            }
            if j + 1 >= s.len() {
                return None;
            }
            let c2 = s[j + 1];
            if c2 == '"' || c2 == '\\' {
                let ghost d_old = d@;
                d.push(c2);
                j = j + 2;
                proof {
                    assert(d@.drop_last() =~= d_old);
                    assert(escape(d@) == escape(d_old) + esc_char(c2));
                    assert(esc_char(c2) =~= seq!['\\', c2]);
                    assert(s@.subrange(start as int, j as int) =~= escape(d_old) + seq![
                        '\\',
                        c2,
                    ]);
                    assert forall|dt: Seq<char>, end: int| #[trigger] closes_at(
                        s@,
                        start as int,
                        end,
                        dt,
                    ) implies dt.len() >= d@.len() && dt.subrange(0, d@.len() as int) == d@
                        && j as int <= end && s@.subrange(j as int, end) == escape(
                        dt.subrange(d@.len() as int, dt.len() as int),
                    ) + seq!['"'] by {
                        let rest = dt.subrange(d_old.len() as int, dt.len() as int);
                        let rest2 = dt.subrange(d@.len() as int, dt.len() as int);
                        let rem = s@.subrange(j - 2, end);
                        assert(rem == escape(rest) + seq!['"']);
                        lemma_escape_front(rest);
                        assert(rest[0] == dt[d_old.len() as int]);
                        assert(rest[0] == c2);
                        assert(esc_char(rest[0]) =~= seq!['\\', c2]);
                        assert(rest.drop_first() =~= rest2);
                        assert(dt.subrange(0, d@.len() as int) =~= d_old.push(c2));
                        assert(s@.subrange(j as int, end) =~= rem.subrange(2, rem.len() as int));
                        assert(rem.subrange(2, rem.len() as int) =~= escape(rest2) + seq!['"']);
                    }
                }
            } else {
                proof {
                    assert forall|dt: Seq<char>, end: int| #[trigger] closes_at(
                        s@,
                        start as int,
                        end,
                        dt,
                    ) implies false by {
                        assert(dt[d@.len() as int] == s@[j + 1]);
                        assert(s@[j + 1] == c2);
                    }
                }
                return None;
            }
        } else {
            let ghost d_old = d@;
            d.push(c);
            j = j + 1;
            proof {
                assert(d@.drop_last() =~= d_old);
                assert(escape(d@) == escape(d_old) + esc_char(c));
                assert(esc_char(c) =~= seq![c]);
                assert(s@.subrange(start as int, j as int) =~= escape(d_old) + seq![c]);
                assert forall|dt: Seq<char>, end: int| #[trigger] closes_at(
                    s@,
                    start as int,
                    end,
                    dt,
                ) implies dt.len() >= d@.len() && dt.subrange(0, d@.len() as int) == d@
                    && j as int <= end && s@.subrange(j as int, end) == escape(
                    dt.subrange(d@.len() as int, dt.len() as int),
                ) + seq!['"'] by {
                    let rest = dt.subrange(d_old.len() as int, dt.len() as int);
                    let rest2 = dt.subrange(d@.len() as int, dt.len() as int);
                    let rem = s@.subrange(j - 1, end);
                    assert(rem == escape(rest) + seq!['"']);
                    assert(rem[0] == s@[j - 1]);
                    if rest.len() == 0 {
                        assert(escape(rest) =~= Seq::<char>::empty());
                        assert(rem.len() == 1);
                        assert(rem[0] == '"');
                    }
                    assert(rest.len() > 0);
                    lemma_escape_front(rest);
                    assert(escape(rest)[0] == esc_char(rest[0])[0]);
                    assert(rem[0] == escape(rest)[0]);
                    if rest[0] == '"' || rest[0] == '\\' {
                        assert(esc_char(rest[0]) =~= seq!['\\', rest[0]]);
                        assert(rem[0] == '\\');
                    }
                    assert(!(rest[0] == '"' || rest[0] == '\\'));
                    assert(esc_char(rest[0]) =~= seq![rest[0]]);
                    assert(rem[0] == rest[0]);
                    assert(rest[0] == c);
                    assert(rest[0] == dt[d_old.len() as int]);
                    assert(rest.drop_first() =~= rest2);
                    assert(dt.subrange(0, d@.len() as int) =~= d_old.push(c));
                    assert(s@.subrange(j as int, end) =~= rem.subrange(1, rem.len() as int));
                    assert(rem.subrange(1, rem.len() as int) =~= escape(rest2) + seq!['"']);
                }
            }
        }
    }
    proof {
        assert forall|dt: Seq<char>, end: int| #[trigger] closes_at(
            s@,
            start as int,
            end,
            dt,
        ) implies false by {
            let rem = s@.subrange(j as int, end);
            assert(rem.len() >= 1);
        }
    }
    None
}

/// Reads one record beginning at `start`. What was consumed is exactly the
/// canonical writing of the task returned.
fn parse_record(s: &Vec<char>, start: usize) -> (r: Option<(Task, usize)>)
    requires
        start <= s@.len(),
    ensures
        r matches Some(p) ==> start < p.1 <= s@.len() && s@.subrange(start as int, p.1 as int)
            == enc_record(p.0@),
        forall|tv: TaskView, end: int| #[trigger] record_at(s@, start as int, end, tv) ==> (
        r matches Some(p) && p.0@ == tv && p.1 == end),
{
    if s.len() - start < 6 {
        proof {
            assert forall|tv: TaskView, end: int| #[trigger] record_at(
                s@,
                start as int,
                end,
                tv,
            ) implies false by {
                lemma_record_decompose(s@, start as int, end, tv);
                crate::numbers::lemma_spec_dec_canonical(tv.id as int);
            }
        }
        return None;
    }
    if s[start] != '{' || s[start + 1] != '"' || s[start + 2] != 'i' || s[start + 3] != 'd' || s[
        start + 4] != '"' || s[start + 5] != ':' {
        proof {
            assert forall|tv: TaskView, end: int| #[trigger] record_at(
                s@,
                start as int,
                end,
                tv,
            ) implies false by {
                lemma_record_decompose(s@, start as int, end, tv);
                let lit = s@.subrange(start as int, start + 6);
                assert(lit == lit_obj_id());
                assert(s@[start as int] == lit[0]);
                assert(s@[start + 1] == lit[1]);
                assert(s@[start + 2] == lit[2]);
                assert(s@[start + 3] == lit[3]);
                assert(s@[start + 4] == lit[4]);
                assert(s@[start + 5] == lit[5]);
            }
        }
        return None;
    }
    proof {
        assert(s@.subrange(start as int, start + 6) =~= lit_obj_id());
    }
    let after_id_key = start + 6;
    let scanned = scan_u32(s, after_id_key);
    let (id, after_digits) = match scanned {
        Some(p) => p,
        None => {
            proof {
                assert forall|tv: TaskView, end: int| #[trigger] record_at(
                    s@,
                    start as int,
                    end,
                    tv,
                ) implies false by {
                    lemma_record_decompose(s@, start as int, end, tv);
                    let dl = spec_dec(tv.id as int).len() as int;
                    assert(crate::numbers::dec_run_at(
                        s@,
                        after_id_key as int,
                        start + 6 + dl,
                        tv.id,
                    ));
                }
            }
            return None;
        },
    };
    proof {
        assert forall|tv: TaskView, end: int| #[trigger] record_at(
            s@,
            start as int,
            end,
            tv,
        ) implies id == tv.id && after_digits as int == start + 6 + spec_dec(
            tv.id as int,
        ).len() by {
            lemma_record_decompose(s@, start as int, end, tv);
            let dl = spec_dec(tv.id as int).len() as int;
            assert(crate::numbers::dec_run_at(s@, after_id_key as int, start + 6 + dl, tv.id));
        }
    }
    if s.len() - after_digits < 16 {
        proof {
            assert forall|tv: TaskView, end: int| #[trigger] record_at(
                s@,
                start as int,
                end,
                tv,
            ) implies false by {
                lemma_record_decompose(s@, start as int, end, tv);
                crate::numbers::lemma_spec_dec_canonical(tv.id as int);
            }
        }
        return None;
    }
    if s[after_digits] != ',' || s[after_digits + 1] != '"' || s[after_digits + 2] != 'd' || s[
        after_digits + 3] != 'e' || s[after_digits + 4] != 's' || s[after_digits + 5] != 'c' || s[
        after_digits + 6] != 'r' || s[after_digits + 7] != 'i' || s[after_digits + 8] != 'p' || s[
        after_digits + 9] != 't' || s[after_digits + 10] != 'i' || s[after_digits + 11] != 'o' || s[
        after_digits + 12] != 'n' || s[after_digits + 13] != '"' || s[after_digits + 14] != ':'
        || s[after_digits + 15] != '"' {
        proof {
            assert forall|tv: TaskView, end: int| #[trigger] record_at(
                s@,
                start as int,
                end,
                tv,
            ) implies false by {
                lemma_record_decompose(s@, start as int, end, tv);
                let dl = spec_dec(tv.id as int).len() as int;
                let lit = s@.subrange(start + 6 + dl, start + 22 + dl);
                assert(lit == lit_desc());
                assert(after_digits as int == start + 6 + dl);
                assert(s@[after_digits as int] == lit[0]);
                assert(s@[after_digits + 1] == lit[1]);
                assert(s@[after_digits + 2] == lit[2]);
                assert(s@[after_digits + 3] == lit[3]);
                assert(s@[after_digits + 4] == lit[4]);
                assert(s@[after_digits + 5] == lit[5]);
                assert(s@[after_digits + 6] == lit[6]);
                assert(s@[after_digits + 7] == lit[7]);
                assert(s@[after_digits + 8] == lit[8]);
                assert(s@[after_digits + 9] == lit[9]);
                assert(s@[after_digits + 10] == lit[10]);
                assert(s@[after_digits + 11] == lit[11]);
                assert(s@[after_digits + 12] == lit[12]);
                assert(s@[after_digits + 13] == lit[13]);
                assert(s@[after_digits + 14] == lit[14]);
                assert(s@[after_digits + 15] == lit[15]);
            }
        }
        return None;
    }
    proof {
        assert(s@.subrange(after_digits as int, after_digits + 16) =~= lit_desc());
    }
    let after_desc_key = after_digits + 16;
    let parsed = parse_string_body(s, after_desc_key);
    let (desc, after_quote) = match parsed {
        Some(p) => p,
        None => {
            proof {
                assert forall|tv: TaskView, end: int| #[trigger] record_at(
                    s@,
                    start as int,
                    end,
                    tv,
                ) implies false by {
                    lemma_record_decompose(s@, start as int, end, tv);
                    let dl = spec_dec(tv.id as int).len() as int;
                    assert(closes_at(s@, after_desc_key as int, end - 1, tv.description));
                }
            }
            return None;
        },
    };
    proof {
        assert forall|tv: TaskView, end: int| #[trigger] record_at(
            s@,
            start as int,
            end,
            tv,
        ) implies desc@ == tv.description && after_quote as int == end - 1 by {
            lemma_record_decompose(s@, start as int, end, tv);
            let dl = spec_dec(tv.id as int).len() as int;
            assert(closes_at(s@, after_desc_key as int, end - 1, tv.description));
        }
    }
    if after_quote >= s.len() {
        proof {
            assert forall|tv: TaskView, end: int| #[trigger] record_at(
                s@,
                start as int,
                end,
                tv,
            ) implies false by {
                lemma_record_decompose(s@, start as int, end, tv);
            }
        }
        return None;
    }
    if s[after_quote] != '}' {
        proof {
            assert forall|tv: TaskView, end: int| #[trigger] record_at(
                s@,
                start as int,
                end,
                tv,
            ) implies false by {
                lemma_record_decompose(s@, start as int, end, tv);
                assert(s@[end - 1] == '}');
            }
        }
        return None;
    }
    let end = after_quote + 1;
    let description = string_from_chars(&desc);
    let t = Task { id, description };
    proof {
        assert forall|tv: TaskView, tend: int| #[trigger] record_at(
            s@,
            start as int,
            tend,
            tv,
        ) implies t@ == tv && end as int == tend by {
            lemma_record_decompose(s@, start as int, tend, tv);
            assert(t@.id == tv.id);
            assert(t@.description == tv.description);
        }
    }
    proof {
        assert(s@[after_quote - 1] == '"') by {
            let seg = s@.subrange(after_desc_key as int, after_quote as int);
            assert(seg == escape(desc@) + seq!['"']);
            assert(seg[seg.len() - 1] == '"');
            assert(seg[seg.len() - 1] == s@[after_quote - 1]);
        }
        assert(s@.subrange(after_quote - 1, end as int) =~= lit_close());
        assert(s@.subrange(after_desc_key as int, after_quote - 1) =~= escape(desc@)) by {
            assert(s@.subrange(after_desc_key as int, after_quote as int) == escape(desc@)
                + seq!['"']);
            assert(s@.subrange(after_desc_key as int, after_quote - 1) =~= s@.subrange(
                after_desc_key as int,
                after_quote as int,
            ).subrange(0, after_quote - 1 - after_desc_key));
        }
        assert(s@.subrange(start as int, end as int) =~= lit_obj_id() + spec_dec(id as int)
            + lit_desc() + escape(desc@) + lit_close());
        assert(t@.description == desc@);
        assert(s@.subrange(start as int, end as int) == enc_record(t@));
    }
    Some((t, end))
}

/// Reads a whole stored document. The reader accepts exactly the canonical
/// encodings: on success the text read is the canonical encoding of the
/// collection returned, so saving it back cannot change the document, and
/// every canonical encoding is accepted.
#[verifier::rlimit(80)]
pub fn parse_tasks(s: &str) -> (r: Option<Vec<Task>>)
    ensures
        r matches Some(ts) ==> s@ == encode(views(ts@)),
        (exists|ts: Seq<TaskView>| s@ == encode(ts)) ==> r is Some,
{
    let v = chars_vec(s);
    if v.len() < 2 {
        proof {
            assert forall|tst: Seq<TaskView>| s@ != #[trigger] encode(tst) by {
                assert(encode(tst).len() >= 2);
            }
        }
        return None;
    }
    if v[0] != '[' {
        proof {
            assert forall|tst: Seq<TaskView>| s@ != #[trigger] encode(tst) by {
                assert(encode(tst)[0] == '[');
                assert(v@[0] == s@[0]);
            }
        }
        return None;
    }
    if v[1] == ']' {
        if v.len() == 2 {
            let tasks: Vec<Task> = Vec::new();
            proof {
                assert(views(tasks@) =~= Seq::<TaskView>::empty());
                assert(s@ =~= encode(views(tasks@)));
            }
            return Some(tasks);
        }
        proof {
            assert forall|tst: Seq<TaskView>| s@ != #[trigger] encode(tst) by {
                if s@ == encode(tst) {
                    if tst.len() == 0 {
                        assert(s@ =~= seq!['[', ']']);
                    } else {
                        lemma_enc_body_front(tst);
                        assert(s@[1] == enc_body(tst)[0]);
                        assert(enc_body(tst)[0] == enc_record(tst[0])[0]);
                        assert(enc_record(tst[0])[0] == '{');
                        assert(v@[1] == s@[1]);
                    }
                }
            }
        }
        return None;
    }
    let mut tasks: Vec<Task> = Vec::new();
    let mut i: usize = 1;
    proof {
        assert(v@.subrange(0, 1) =~= seq!['[']);
        assert(v@.subrange(0, 1) =~= seq!['['] + enc_body(views(tasks@)));
        assert forall|tst: Seq<TaskView>| s@ == #[trigger] encode(tst)
            implies tasks@.len() < tst.len() && tst.subrange(0, tasks@.len() as int) == views(
            tasks@,
        ) && s@.subrange(i as int, s@.len() as int) == enc_body(
            tst.subrange(tasks@.len() as int, tst.len() as int),
        ) + seq![']'] by {
            if tst.len() == 0 {
                assert(s@ =~= seq!['[', ']']);
                assert(v@[1] == s@[1]);
            }
            assert(tst.subrange(0, 0) =~= views(tasks@));
            assert(tst.subrange(0, tst.len() as int) =~= tst);
            let cat = seq!['['] + enc_body(tst) + seq![']'];
            assert(s@.subrange(1, s@.len() as int) =~= enc_body(tst) + seq![']']) by {
                assert forall|m: int| 0 <= m < s@.len() - 1 implies s@.subrange(
                    1,
                    s@.len() as int,
                )[m] == (enc_body(tst) + seq![']'])[m] by {
                    assert(s@.subrange(1, s@.len() as int)[m] == s@[1 + m]);
                    assert(s@[1 + m] == cat[1 + m]);
                }
            }
        }
    }
    while i < v.len()
        invariant
            1 <= i <= v@.len(),
            v@ == s@,
            tasks@.len() == 0 ==> v@.subrange(0, i as int) == seq!['['] + enc_body(
                views(tasks@),
            ),
            tasks@.len() > 0 ==> v@.subrange(0, i as int) == seq!['['] + enc_body(views(tasks@))
                + seq![','],
            tasks@.len() > 0 ==> i > 1,
            forall|tst: Seq<TaskView>| s@ == #[trigger] encode(tst) ==> tasks@.len() < tst.len()
                && tst.subrange(0, tasks@.len() as int) == views(tasks@) && s@.subrange(
                i as int,
                s@.len() as int,
            ) == enc_body(tst.subrange(tasks@.len() as int, tst.len() as int)) + seq![']'],
        decreases v@.len() - i,
    {
        proof {
            assert forall|tst: Seq<TaskView>| s@ == #[trigger] encode(tst) implies record_at(
                s@,
                i as int,
                i + enc_record(tst[tasks@.len() as int]).len(),
                tst[tasks@.len() as int],
            ) by {
                let k = tasks@.len() as int;
                let rest = tst.subrange(k, tst.len() as int);
                lemma_enc_body_front(rest);
                assert(rest[0] == tst[k]);
                let le = enc_record(rest[0]).len() as int;
                let rem = s@.subrange(i as int, s@.len() as int);
                assert(rem == enc_body(rest) + seq![']']);
                assert(rem.len() >= le + 1);
                assert(s@.subrange(i as int, i + le) =~= enc_record(rest[0])) by {
                    assert forall|m: int| 0 <= m < le implies s@.subrange(i as int, i + le)[m]
                        == enc_record(rest[0])[m] by {
                        assert(s@.subrange(i as int, i + le)[m] == s@[i + m]);
                        assert(rem[m] == s@[i + m]);
                        assert(rem[m] == enc_body(rest)[m]);
                        assert(enc_body(rest)[m] == enc_record(rest[0])[m]);
                    }
                }
            }
        }
        let parsed = parse_record(&v, i);
        let (t, end) = match parsed {
            Some(p) => p,
            None => {
                proof {
                    assert forall|tst: Seq<TaskView>| s@ != #[trigger] encode(tst) by {
                        if s@ == encode(tst) {
                            assert(record_at(
                                s@,
                                i as int,
                                i + enc_record(tst[tasks@.len() as int]).len(),
                                tst[tasks@.len() as int],
                            ));
                        }
                    }
                }
                return None;
            },
        };
        let ghost tasks_old = tasks@;
        tasks.push(t);
        proof {
            assert(views(tasks@) =~= views(tasks_old).push(t@));
            let cur = views(tasks@);
            assert(cur.drop_last() =~= views(tasks_old));
            assert(cur.last() == t@);
            if tasks_old.len() == 0 {
                assert(enc_body(cur) == enc_record(t@));
            } else {
                assert(enc_body(cur) == enc_body(views(tasks_old)) + seq![','] + enc_record(
                    t@,
                ));
            }
            assert(v@.subrange(0, end as int) =~= v@.subrange(0, i as int) + v@.subrange(
                i as int,
                end as int,
            ));
            assert(v@.subrange(0, end as int) =~= seq!['['] + enc_body(cur));
            // what any encoded collection must hold after this record
            assert forall|tst: Seq<TaskView>| s@ == #[trigger] encode(tst)
                implies tasks@.len() <= tst.len() && tst.subrange(0, tasks@.len() as int)
                == views(tasks@) && s@.subrange(end as int, s@.len() as int) == (if tst.len()
                == tasks@.len() {
                Seq::<char>::empty()
            } else {
                seq![','] + enc_body(tst.subrange(tasks@.len() as int, tst.len() as int))
            }) + seq![']'] by {
                let k = tasks_old.len() as int;
                let rest = tst.subrange(k, tst.len() as int);
                lemma_enc_body_front(rest);
                assert(rest[0] == tst[k]);
                let le = enc_record(rest[0]).len() as int;
                assert(record_at(s@, i as int, i + le, rest[0]));
                assert(t@ == rest[0] && end as int == i + le);
                assert(tst.subrange(0, k + 1) =~= tst.subrange(0, k).push(tst[k]));
                assert(tst.subrange(0, k + 1) == views(tasks@));
                let rem = s@.subrange(i as int, s@.len() as int);
                assert(rem == enc_body(rest) + seq![']']);
                let tail_enc = if rest.len() == 1 {
                    Seq::<char>::empty()
                } else {
                    seq![','] + enc_body(rest.drop_first())
                };
                assert(enc_body(rest) == enc_record(rest[0]) + tail_enc);
                assert(rest.drop_first() =~= tst.subrange(k + 1, tst.len() as int));
                assert(s@.subrange(end as int, s@.len() as int) =~= tail_enc + seq![']']) by {
                    assert forall|m: int| 0 <= m < s@.len() - end implies s@.subrange(
                        end as int,
                        s@.len() as int,
                    )[m] == (tail_enc + seq![']'])[m] by {
                        assert(s@.subrange(end as int, s@.len() as int)[m] == s@[end + m]);
                        assert(rem[le + m] == s@[end + m]);
                        assert(rem[le + m] == (tail_enc + seq![']'])[m]);
                    }
                }
            }
        }
        if end >= v.len() {
            proof {
                assert forall|tst: Seq<TaskView>| s@ != #[trigger] encode(tst) by {
                    if s@ == encode(tst) {
                        assert(s@.subrange(end as int, s@.len() as int).len() >= 1);
                    }
                }
            }
            return None;
        }
        let c = v[end];
        proof {
            assert(c == s@[end as int]);
            assert forall|tst: Seq<TaskView>| s@ == #[trigger] encode(tst) implies (tst.len()
                == tasks@.len() ==> c == ']' && end + 1 == s@.len()) && (tst.len() > tasks@.len()
                ==> c == ',') by {
                let after = s@.subrange(end as int, s@.len() as int);
                assert(after[0] == s@[end as int]);
                if tst.len() == tasks@.len() {
                    assert(after =~= seq![']']);
                } else {
                    assert(after[0] == ',');
                }
            }
        }
        if c == ']' {
            if end + 1 == v.len() {
                proof {
                    assert(v@.subrange(0, v@.len() as int) =~= v@);
                    assert(v@ =~= seq!['['] + enc_body(views(tasks@)) + seq![']']);
                    assert(s@ == encode(views(tasks@)));
                }
                return Some(tasks);
            }
            proof {
                assert forall|tst: Seq<TaskView>| s@ != #[trigger] encode(tst) by {
                    if s@ == encode(tst) {
                        assert(tst.len() == tasks@.len() || tst.len() > tasks@.len());
                    }
                }
            }
            return None;
        } else if c == ',' {
            i = end + 1;
            proof {
                assert(v@.subrange(0, i as int) =~= v@.subrange(0, end as int) + seq![',']);
                assert forall|tst: Seq<TaskView>| s@ == #[trigger] encode(tst)
                    implies tasks@.len() < tst.len() && tst.subrange(0, tasks@.len() as int)
                    == views(tasks@) && s@.subrange(i as int, s@.len() as int) == enc_body(
                    tst.subrange(tasks@.len() as int, tst.len() as int),
                ) + seq![']'] by {
                    assert(tst.len() != tasks@.len());
                    let after = s@.subrange(end as int, s@.len() as int);
                    let tail_enc = seq![','] + enc_body(
                        tst.subrange(tasks@.len() as int, tst.len() as int),
                    );
                    assert(after == tail_enc + seq![']']);
                    assert(s@.subrange(i as int, s@.len() as int) =~= enc_body(
                        tst.subrange(tasks@.len() as int, tst.len() as int),
                    ) + seq![']']) by {
                        assert forall|m: int| 0 <= m < s@.len() - i implies s@.subrange(
                            i as int,
                            s@.len() as int,
                        )[m] == (enc_body(tst.subrange(tasks@.len() as int, tst.len() as int))
                            + seq![']'])[m] by {
                            assert(s@.subrange(i as int, s@.len() as int)[m] == s@[i + m]);
                            assert(after[1 + m] == s@[end + 1 + m]);
                            assert(after[1 + m] == (tail_enc + seq![']'])[1 + m]);
                        }
                    }
                }
            }
        } else {
            proof {
                assert forall|tst: Seq<TaskView>| s@ != #[trigger] encode(tst) by {
                    if s@ == encode(tst) {
                        assert(tst.len() == tasks@.len() || tst.len() > tasks@.len());
                    }
                }
            }
            return None;
        }
    }
    proof {
        assert forall|tst: Seq<TaskView>| s@ != #[trigger] encode(tst) by {
            if s@ == encode(tst) {
                assert(s@.subrange(i as int, s@.len() as int).len() >= 1);
            }
        }
    }
    None
}

/// What a load gives back for a storage document, or for a missing file.
/// A missing document and one that is not a canonical encoding load alike:
/// both give the empty collection, silently. A well-formed document loads
/// as the collection it encodes, so saving what was loaded writes the very
/// same text back.
pub fn load_tasks(content: &Option<String>) -> (r: Vec<Task>)
    ensures
        content is None ==> r@.len() == 0,
        content matches Some(text) ==> ((exists|ts: Seq<TaskView>| text@ == encode(ts))
            ==> text@ == encode(views(r@))),
        content matches Some(text) ==> (!(exists|ts: Seq<TaskView>| text@ == encode(ts))
            ==> r@.len() == 0),
{
    match content {
        None => Vec::new(),
        Some(text) => {
            match parse_tasks(text.as_str()) {
                Some(ts) => ts,
                None => Vec::new(),
            }
        },
    }
}

} // verus!
