//! Splitting a delimited list variable into ordered entries, and joining
//! parts back into a single delimited string.
//!
//! Splitting never fails: any string is splittable, and the empty string
//! yields a single empty entry, consistent with split semantics. No entry
//! is trimmed or deduplicated.

use vstd::prelude::*;
use vstd::string::StrSliceExecFns;

verus! {

/// One element of a delimiter-separated list variable: the text exactly as
/// split (possibly empty) and its 0-based position, which defines output
/// order. Duplicates are preserved and validated independently.
#[derive(Debug, PartialEq, Eq)]
pub struct Entry {
    pub raw: Vec<char>,
    pub index: usize,
}

/// Mathematical model of an [`Entry`]: its text as a sequence of
/// characters, and its position in the list.
#[verifier::ext_equal]
pub struct EntryV {
    pub raw: Seq<char>,
    pub index: int,
}

impl View for Entry {
    type V = EntryV;

    open spec fn view(&self) -> EntryV {
        EntryV { raw: self.raw@, index: self.index as int }
    }
}

/// The models of a sequence of entries, in order.
pub open spec fn entry_views(entries: Seq<Entry>) -> Seq<EntryV> {
    entries.map_values(|e: Entry| e@)
}

/// The texts of a sequence of entry models, in order.
pub open spec fn raws_of(entries: Seq<EntryV>) -> Seq<Seq<char>> {
    entries.map_values(|e: EntryV| e.raw)
}

/// The string formed by writing the given parts in order with the
/// delimiter between consecutive parts. Joining no parts gives the empty
/// string; joining one part gives that part alone.
pub open spec fn join_spec(parts: Seq<Seq<char>>, delimiter: char) -> Seq<char>
    decreases parts.len(),
{
    if parts.len() == 0 {
        Seq::<char>::empty()
    } else if parts.len() == 1 {
        parts[0]
    } else {
        parts[0] + seq![delimiter] + join_spec(parts.drop_first(), delimiter)
    }
}

/// Appending one more part extends the joined string by a delimiter (when
/// any part came before) followed by the new part.
pub proof fn lemma_join_spec_push(parts: Seq<Seq<char>>, part: Seq<char>, delimiter: char)
    ensures
        parts.len() == 0 ==> join_spec(parts.push(part), delimiter) == part,
        parts.len() > 0 ==> join_spec(parts.push(part), delimiter) == join_spec(parts, delimiter)
            + seq![delimiter] + part,
    decreases parts.len(),
{
    if parts.len() == 0 {
        assert(parts.push(part)[0] == part);
    } else if parts.len() == 1 {
        assert(parts.push(part)[0] == parts[0]);
        assert(parts.push(part).drop_first() =~= seq![part]);
        assert(join_spec(seq![part], delimiter) == part);
    } else {
        assert(parts.push(part)[0] == parts[0]);
        assert(parts.push(part).drop_first() =~= parts.drop_first().push(part));
        lemma_join_spec_push(parts.drop_first(), part, delimiter);
        assert(parts[0] + seq![delimiter] + (join_spec(parts.drop_first(), delimiter)
            + seq![delimiter] + part) =~= (parts[0] + seq![delimiter] + join_spec(
            parts.drop_first(),
            delimiter,
        )) + seq![delimiter] + part);
    }
}

/// Appends a copy of `src`'s characters to `out`.
pub(crate) fn append_chars(out: &mut Vec<char>, src: &Vec<char>)
    ensures
        final(out)@ == old(out)@ + src@,
{
    proof {
        assert(old(out)@ + src@.take(0) =~= old(out)@);
    }
    let mut j: usize = 0;
    while j < src.len()
        invariant
            j <= src@.len(),
            out@ == old(out)@ + src@.take(j as int),
        decreases src@.len() - j,
    {
        let c = src[j];
        out.push(c);
        proof {
            assert(src@.take(j + 1) =~= src@.take(j as int).push(src@[j as int]));
            assert(old(out)@ + src@.take(j as int).push(src@[j as int]) =~= (old(out)@
                + src@.take(j as int)).push(src@[j as int]));
        }
        j += 1;
    }
    proof {
        assert(src@.take(src@.len() as int) =~= src@);
    }
}

/// Two delimiter-free texts followed by the same delimiter decompose a
/// string in only one way: equal concatenations have equal heads and
/// equal tails.
proof fn lemma_delimiter_free_prefix(
    x: Seq<char>,
    u: Seq<char>,
    y: Seq<char>,
    v: Seq<char>,
    delimiter: char,
)
    requires
        !x.contains(delimiter),
        !y.contains(delimiter),
        x + seq![delimiter] + u == y + seq![delimiter] + v,
    ensures
        x == y,
        u == v,
{
    if x.len() < y.len() {
        assert((x + seq![delimiter] + u)[x.len() as int] == delimiter);
        assert((y + seq![delimiter] + v)[x.len() as int] == y[x.len() as int]);
        assert(y.contains(delimiter));
    } else if y.len() < x.len() {
        assert((y + seq![delimiter] + v)[y.len() as int] == delimiter);
        assert((x + seq![delimiter] + u)[y.len() as int] == x[y.len() as int]);
        assert(x.contains(delimiter));
    }
    assert(x =~= y) by {
        assert forall|i: int| 0 <= i < x.len() implies x[i] == y[i] by {
            assert((x + seq![delimiter] + u)[i] == x[i]);
            assert((y + seq![delimiter] + v)[i] == y[i]);
        }
    }
    assert(u =~= v) by {
        assert((x + seq![delimiter] + u).len() == x.len() + 1 + u.len());
        assert((y + seq![delimiter] + v).len() == y.len() + 1 + v.len());
        assert(u.len() == v.len());
        assert forall|i: int| 0 <= i < u.len() implies u[i] == v[i] by {
            assert((x + seq![delimiter] + u)[x.len() + 1 + i] == u[i]);
            assert((y + seq![delimiter] + v)[y.len() + 1 + i] == v[i]);
        }
    }
}

/// A string decomposes into delimiter-free parts in only one way: two
/// part sequences that join to the same string are the same sequence. In
/// particular, re-splitting a string joined from delimiter-free parts —
/// such as the corrected string of a Filter-mode report with at least one
/// entry kept — recovers exactly those parts, in the same order.
pub proof fn lemma_parts_unique(a: Seq<Seq<char>>, b: Seq<Seq<char>>, delimiter: char)
    requires
        a.len() >= 1,
        b.len() >= 1,
        forall|i: int| 0 <= i < a.len() ==> !(#[trigger] a[i]).contains(delimiter),
        forall|i: int| 0 <= i < b.len() ==> !(#[trigger] b[i]).contains(delimiter),
        join_spec(a, delimiter) == join_spec(b, delimiter),
    ensures
        a == b,
    decreases a.len(),
{
    if a.len() == 1 && b.len() == 1 {
        assert(a =~~= b);
    } else if a.len() == 1 {
        assert(join_spec(b, delimiter) == b[0] + seq![delimiter] + join_spec(
            b.drop_first(),
            delimiter,
        ));
        assert(a[0][b[0].len() as int] == delimiter);
        assert(a[0].contains(delimiter));
    } else if b.len() == 1 {
        assert(join_spec(a, delimiter) == a[0] + seq![delimiter] + join_spec(
            a.drop_first(),
            delimiter,
        ));
        assert(b[0][a[0].len() as int] == delimiter);
        assert(b[0].contains(delimiter));
    } else {
        lemma_delimiter_free_prefix(
            a[0],
            join_spec(a.drop_first(), delimiter),
            b[0],
            join_spec(b.drop_first(), delimiter),
            delimiter,
        );
        assert forall|i: int|
            0 <= i < a.drop_first().len() implies !(#[trigger] a.drop_first()[i]).contains(
            delimiter,
        ) by {
            assert(a.drop_first()[i] == a[i + 1]);
        }
        assert forall|i: int|
            0 <= i < b.drop_first().len() implies !(#[trigger] b.drop_first()[i]).contains(
            delimiter,
        ) by {
            assert(b.drop_first()[i] == b[i + 1]);
        }
        lemma_parts_unique(a.drop_first(), b.drop_first(), delimiter);
        assert(a =~~= b) by {
            assert forall|i: int| 0 <= i < a.len() implies a[i] == b[i] by {
                if i > 0 {
                    assert(a.drop_first()[i - 1] == a[i]);
                    assert(b.drop_first()[i - 1] == b[i]);
                }
            }
        }
    }
}

/// Splits `input` on every occurrence of `delimiter`, producing empty
/// entries for consecutive, leading or trailing delimiters; nothing is
/// trimmed or deduplicated. The result always holds at least one entry
/// (the empty input yields a single empty entry), no entry's text contains
/// the delimiter, each entry records its 0-based position, and joining the
/// texts back with the same delimiter restores `input` exactly.
pub fn parse(input: &str, delimiter: char) -> (entries: Vec<Entry>)
    ensures
        entries@.len() >= 1,
        forall|i: int|
            0 <= i < entries@.len() ==> !(#[trigger] entries@[i]).raw@.contains(delimiter),
        forall|i: int| 0 <= i < entries@.len() ==> (#[trigger] entries@[i]).index as int == i,
        join_spec(raws_of(entry_views(entries@)), delimiter) == input@,
{
    let n = input.unicode_len();
    let mut entries: Vec<Entry> = Vec::new();
    let mut cur: Vec<char> = Vec::new();
    proof {
        assert(raws_of(entry_views(entries@)).push(cur@) =~= seq![cur@]);
        assert(join_spec(seq![cur@], delimiter) == cur@);
        assert(input@.take(0) =~= cur@);
    }
    let mut i: usize = 0;
    while i < n
        invariant
            i <= n,
            n == input@.len(),
            forall|k: int|
                0 <= k < entries@.len() ==> !(#[trigger] entries@[k]).raw@.contains(delimiter),
            forall|k: int| 0 <= k < entries@.len() ==> (#[trigger] entries@[k]).index as int == k,
            !cur@.contains(delimiter),
            join_spec(raws_of(entry_views(entries@)).push(cur@), delimiter) == input@.take(i as int),
        decreases n - i,
    {
        let ghost parts = raws_of(entry_views(entries@));
        let ghost cur0 = cur@;
        let c = input.get_char(i);
        proof {
            assert(input@.take(i + 1) =~= input@.take(i as int).push(input@[i as int]));
        }
        if c == delimiter {
            let idx = entries.len();
            entries.push(Entry { raw: cur, index: idx });
            cur = Vec::new();
            proof {
                assert(raws_of(entry_views(entries@)) =~~= parts.push(cur0));
                lemma_join_spec_push(parts.push(cur0), cur@, delimiter);
                assert(join_spec(parts.push(cur0), delimiter) + seq![delimiter] + cur@
                    =~= input@.take(i as int).push(delimiter));
            }
        } else {
            cur.push(c);
            proof {
                if cur@.contains(delimiter) {
                    let k = choose|k: int|
                        0 <= k < cur@.len() && cur@[k] == delimiter;
                    assert(cur0[k] == delimiter);
                    assert(cur0.contains(delimiter));
                }
                lemma_join_spec_push(parts, cur0, delimiter);
                lemma_join_spec_push(parts, cur@, delimiter);
                if parts.len() == 0 {
                    assert(cur@ =~= input@.take(i as int).push(c));
                } else {
                    assert(join_spec(parts, delimiter) + seq![delimiter] + cur@ =~= (join_spec(
                        parts,
                        delimiter,
                    ) + seq![delimiter] + cur0).push(c));
                }
            }
        }
        i += 1;
    }
    let ghost parts = raws_of(entry_views(entries@));
    let idx = entries.len();
    entries.push(Entry { raw: cur, index: idx });
    proof {
        assert(raws_of(entry_views(entries@)) =~~= parts.push(cur@));
        assert(input@.take(n as int) =~= input@);
    }
    entries
}

/// Joins the entries' texts with the delimiter, in order: on the entries
/// that [`parse`] returned, this restores the parsed string exactly.
pub fn join(entries: &Vec<Entry>, delimiter: char) -> (out: Vec<char>)
    ensures
        out@ == join_spec(raws_of(entry_views(entries@)), delimiter),
{
    let ghost parts = raws_of(entry_views(entries@));
    let mut out: Vec<char> = Vec::new();
    let mut k: usize = 0;
    while k < entries.len()
        invariant
            k <= entries@.len(),
            parts == raws_of(entry_views(entries@)),
            parts.len() == entries@.len(),
            out@ == join_spec(parts.take(k as int), delimiter),
        decreases entries@.len() - k,
    {
        proof {
            assert(parts[k as int] == entries@[k as int].raw@);
            assert(parts.take(k + 1) =~= parts.take(k as int).push(parts[k as int]));
            lemma_join_spec_push(parts.take(k as int), parts[k as int], delimiter);
        }
        if k > 0 {
            out.push(delimiter);
        }
        append_chars(&mut out, &entries[k].raw);
        proof {
            if k > 0 {
                assert(join_spec(parts.take(k as int), delimiter).push(delimiter)
                    + entries@[k as int].raw@ =~= join_spec(parts.take(k as int), delimiter)
                    + seq![delimiter] + entries@[k as int].raw@);
            } else {
                assert(out@ =~= entries@[k as int].raw@);
            }
        }
        k += 1;
    }
    proof {
        assert(parts.take(parts.len() as int) =~= parts);
    }
    out
}

} // verus!
