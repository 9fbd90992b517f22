//! Newline-terminated records on the wire, and the two record shapes the
//! broker reads: a comma-separated channel list and a `<channel> <message>`
//! publish record.
use vstd::prelude::*;
use vstd::utf8::valid_utf8;

verus! {

pub const NEWLINE: u8 = 10;

pub const CARRIAGE_RETURN: u8 = 13;

pub const SPACE: u8 = 32;

pub const COMMA: u8 = 44;

pub open spec fn is_line_end(b: u8) -> bool {
    b == NEWLINE || b == CARRIAGE_RETURN
}

/// A line with every trailing CR and LF removed.
pub open spec fn record_of(line: Seq<u8>) -> Seq<u8>
    decreases line.len(),
{
    if line.len() > 0 && is_line_end(line.last()) {
        record_of(line.drop_last())
    } else {
        line
    }
}

/// A line without its terminating LF, if it has one; everything before it,
/// a CR included, is kept.
pub open spec fn without_newline(line: Seq<u8>) -> Seq<u8> {
    if line.len() > 0 && line.last() == NEWLINE {
        line.drop_last()
    } else {
        line
    }
}

/// The fields of `s` between separators; always at least one field.
pub open spec fn split_on(s: Seq<u8>, sep: u8) -> Seq<Seq<u8>>
    decreases s.len(),
{
    if s.len() == 0 {
        seq![Seq::empty()]
    } else {
        let init = split_on(s.drop_last(), sep);
        if s.last() == sep {
            init.push(Seq::empty())
        } else {
            init.update(init.len() - 1, init.last().push(s.last()))
        }
    }
}

pub open spec fn all_empty(fields: Seq<Seq<u8>>) -> bool {
    forall|i: int| 0 <= i < fields.len() ==> #[trigger] fields[i].len() == 0
}

/// The line a subscriber of `channel` is sent for `message`.
pub open spec fn delivery_line(channel: Seq<u8>, message: Seq<u8>) -> Seq<u8> {
    channel + seq![SPACE] + message + seq![NEWLINE]
}

proof fn lemma_split_nonempty(s: Seq<u8>, sep: u8)
    ensures
        split_on(s, sep).len() >= 1,
    decreases s.len(),
{
    if s.len() > 0 {
        lemma_split_nonempty(s.drop_last(), sep);
    }
}

pub fn copy_prefix(s: &[u8], n: usize) -> (r: Vec<u8>)
    requires
        n <= s@.len(),
    ensures
        r@ == s@.subrange(0, n as int),
{
    let mut r: Vec<u8> = Vec::new();
    let mut i: usize = 0;
    while i < n
        invariant
            i <= n <= s@.len(),
            r@ == s@.subrange(0, i as int),
        decreases n - i,
    {
        r.push(s[i]);
        i = i + 1;
        assert(r@ =~= s@.subrange(0, i as int));
    }
    r
}

fn copy_range(s: &[u8], lo: usize, hi: usize) -> (r: Vec<u8>)
    requires
        lo <= hi <= s@.len(),
    ensures
        r@ == s@.subrange(lo as int, hi as int),
{
    let mut r: Vec<u8> = Vec::new();
    let mut i: usize = lo;
    while i < hi
        invariant
            lo <= i <= hi <= s@.len(),
            r@ == s@.subrange(lo as int, i as int),
        decreases hi - i,
    {
        r.push(s[i]);
        i = i + 1;
        assert(r@ =~= s@.subrange(lo as int, i as int));
    }
    r
}

/// The record a line carries: the line without its trailing CR/LF bytes.
pub fn record(line: &[u8]) -> (r: Vec<u8>)
    ensures
        r@ == record_of(line@),
        r@.len() <= line@.len(),
{
    let mut j: usize = line.len();
    assert(line@.subrange(0, j as int) =~= line@);
    while j > 0 && (line[j - 1] == NEWLINE || line[j - 1] == CARRIAGE_RETURN)
        invariant
            j <= line@.len(),
            record_of(line@.subrange(0, j as int)) == record_of(line@),
        decreases j,
    {
        assert(line@.subrange(0, j as int).drop_last() =~= line@.subrange(0, j - 1));
        j = j - 1;
    }
    copy_prefix(line, j)
}

/// The line without its terminating LF, if it has one.
pub fn strip_newline(line: &[u8]) -> (r: Vec<u8>)
    ensures
        r@ == without_newline(line@),
{
    if line.len() > 0 && line[line.len() - 1] == NEWLINE {
        copy_prefix(line, line.len() - 1)
    } else {
        let r = copy_prefix(line, line.len());
        assert(r@ =~= line@);
        r
    }
}

/// Relies on std::str::from_utf8: it succeeds exactly on well-formed UTF-8
/// (no overlong forms, no surrogates, no truncated sequence).
#[verifier::external_body]
pub(crate) fn is_utf8(bytes: &[u8]) -> (r: bool)
    ensures
        r == valid_utf8(bytes@),
{
    std::str::from_utf8(bytes).is_ok()
}

/// Whether two byte strings are equal.
pub fn bytes_equal(a: &[u8], b: &[u8]) -> (r: bool)
    ensures
        r == (a@ == b@),
{
    if a.len() != b.len() {
        return false;
    }
    let mut i: usize = 0;
    while i < a.len()
        invariant
            a@.len() == b@.len(),
            i <= a@.len(),
            a@.subrange(0, i as int) == b@.subrange(0, i as int),
        decreases a@.len() - i,
    {
        if a[i] != b[i] {
            return false;
        }
        assert(a@.subrange(0, i + 1) =~= a@.subrange(0, i as int).push(a@[i as int]));
        assert(b@.subrange(0, i + 1) =~= b@.subrange(0, i as int).push(b@[i as int]));
        i = i + 1;
    }
    assert(a@ =~= a@.subrange(0, i as int));
    assert(b@ =~= b@.subrange(0, i as int));
    true
}

/// The comma-separated fields of a channel declaration, empty ones included.
pub fn split_channels(s: &[u8]) -> (r: Vec<Vec<u8>>)
    ensures
        r@.len() == split_on(s@, COMMA).len(),
        forall|i: int| 0 <= i < r@.len() ==> #[trigger] r@[i]@ == split_on(s@, COMMA)[i],
{
    let mut done: Vec<Vec<u8>> = Vec::new();
    let mut cur: Vec<u8> = Vec::new();
    let mut i: usize = 0;
    assert(s@.subrange(0, 0) =~= Seq::<u8>::empty());
    while i < s.len()
        invariant
            i <= s@.len(),
            done@.len() + 1 == split_on(s@.subrange(0, i as int), COMMA).len(),
            forall|k: int|
                0 <= k < done@.len() ==> #[trigger] done@[k]@ == split_on(
                    s@.subrange(0, i as int),
                    COMMA,
                )[k],
            cur@ == split_on(s@.subrange(0, i as int), COMMA).last(),
        decreases s@.len() - i,
    {
        let ghost pre = s@.subrange(0, i as int);
        assert(s@.subrange(0, i + 1).drop_last() =~= pre);
        proof {
            lemma_split_nonempty(pre, COMMA);
        }
        if s[i] == COMMA {
            done.push(cur);
            cur = Vec::new();
            assert(cur@ =~= Seq::<u8>::empty());
        } else {
            cur.push(s[i]);
        }
        i = i + 1;
    }
    assert(s@.subrange(0, i as int) =~= s@);
    done.push(cur);
    done
}

/// Whether every field is empty (a declaration of no channels).
pub fn no_channels(fields: &Vec<Vec<u8>>) -> (r: bool)
    ensures
        r == (forall|i: int| 0 <= i < fields@.len() ==> #[trigger] fields@[i]@.len() == 0),
{
    let mut i: usize = 0;
    while i < fields.len()
        invariant
            i <= fields@.len(),
            forall|k: int| 0 <= k < i ==> #[trigger] fields@[k]@.len() == 0,
        decreases fields@.len() - i,
    {
        if fields[i].len() != 0 {
            return false;
        }
        i = i + 1;
    }
    true
}

/// Splits a publish record at its first space into channel and message.
/// `None` when the record holds no space.
pub fn parse_publish(rec: &[u8]) -> (r: Option<(Vec<u8>, Vec<u8>)>)
    ensures
        r matches Some((c, m)) ==> rec@ == c@ + seq![SPACE] + m@ && !c@.contains(SPACE),
        r is None <==> !rec@.contains(SPACE),
{
    let mut k: usize = 0;
    while k < rec.len() && rec[k] != SPACE
        invariant
            k <= rec@.len(),
            forall|j: int| 0 <= j < k ==> rec@[j] != SPACE,
        decreases rec@.len() - k,
    {
        k = k + 1;
    }
    if k == rec.len() {
        return None;
    }
    let c = copy_prefix(rec, k);
    let m = copy_range(rec, k + 1, rec.len());
    assert(rec@ =~= c@ + seq![SPACE] + m@);
    Some((c, m))
}

/// The line sent to each subscriber of `channel` for `message`.
pub fn make_delivery_line(channel: &[u8], message: &[u8]) -> (r: Vec<u8>)
    requires
        channel@.len() + message@.len() + 2 <= usize::MAX,
    ensures
        r@ == delivery_line(channel@, message@),
{
    let mut r = copy_prefix(channel, channel.len());
    r.push(SPACE);
    let mut i: usize = 0;
    while i < message.len()
        invariant
            i <= message@.len(),
            r@ == channel@ + seq![SPACE] + message@.subrange(0, i as int),
        decreases message@.len() - i,
    {
        r.push(message[i]);
        i = i + 1;
        assert(r@ =~= channel@ + seq![SPACE] + message@.subrange(0, i as int));
    }
    r.push(NEWLINE);
    assert(message@.subrange(0, message@.len() as int) =~= message@);
    assert(r@ =~= delivery_line(channel@, message@));
    r
}

} // verus!
