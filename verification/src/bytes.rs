use vstd::prelude::*;

verus! {

/// The byte that ends the taxon id of every token of an evidence string.
pub const FIELD_SEPARATOR: u8 = 58;

/// The byte between the fields of a classification row.
pub const TAB: u8 = 9;

/// The byte that ends a line.
pub const NEWLINE: u8 = 10;

/// The byte between the tokens of an evidence string.
pub const SPACE: u8 = 32;

/// The byte strings that a vector of byte vectors holds, in order.
pub open spec fn byte_rows(v: Seq<Vec<u8>>) -> Seq<Seq<u8>> {
    v.map_values(|row: Vec<u8>| row@)
}

/// `pat` stands in `hay` at offset `i`.
pub open spec fn occurs_at(hay: Seq<u8>, pat: Seq<u8>, i: int) -> bool {
    0 <= i && i + pat.len() <= hay.len() && hay.subrange(i, i + pat.len()) == pat
}

/// `s` holds no byte `b`.
pub open spec fn free_of(s: Seq<u8>, b: u8) -> bool {
    forall|i: int| 0 <= i < s.len() ==> s[i] != b
}

/// A sequence with one more item at its end holds what it held and that
/// item.
pub proof fn lemma_push_holds(rows: Seq<Seq<u8>>, x: Seq<u8>)
    ensures
        forall|t: Seq<u8>| rows.push(x).contains(t) <==> (rows.contains(t) || t == x),
        rows.push(x).to_set() == rows.to_set().insert(x),
{
    let more = rows.push(x);
    assert forall|t: Seq<u8>| more.contains(t) <==> (rows.contains(t) || t == x) by {
        if rows.contains(t) {
            let w = choose|w: int| 0 <= w < rows.len() && rows[w] == t;
            assert(more[w] == t);
        }
        if t == x {
            assert(more[rows.len() as int] == t);
        }
    }
    assert(more.to_set() =~= rows.to_set().insert(x));
}

/// The offset of the first `b` in `s`, or the length of `s` where it holds none.
pub open spec fn first_index(s: Seq<u8>, b: u8) -> nat
    decreases s.len(),
{
    if s.len() == 0 {
        0
    } else if s[0] == b {
        0
    } else {
        (1 + first_index(s.skip(1), b)) as nat
    }
}

/// The pieces of `s` between the occurrences of `sep`, in order: one more
/// than there are occurrences, each free of `sep`.
pub open spec fn split(s: Seq<u8>, sep: u8) -> Seq<Seq<u8>>
    decreases s.len(),
{
    let i = first_index(s, sep);
    if i >= s.len() {
        seq![s]
    } else {
        seq![s.take(i as int)] + split(s.skip(i as int + 1), sep)
    }
}

/// `first_index` lies within the sequence, finds `b` where it stops short of
/// the end, and passes over nothing equal to `b`.
pub proof fn lemma_first_index(s: Seq<u8>, b: u8)
    ensures
        0 <= first_index(s, b) <= s.len(),
        first_index(s, b) < s.len() ==> s[first_index(s, b) as int] == b,
        forall|j: int| 0 <= j < first_index(s, b) ==> s[j] != b,
    decreases s.len(),
{
    if s.len() > 0 && s[0] != b {
        lemma_first_index(s.skip(1), b);
        assert forall|j: int| 0 <= j < first_index(s, b) implies s[j] != b by {
            if j > 0 {
                assert(s.skip(1)[j - 1] == s[j]);
            }
        }
    }
}

/// Any offset that holds `b` after a run free of `b` is the first index.
pub proof fn lemma_first_index_is(s: Seq<u8>, b: u8, i: int)
    requires
        0 <= i <= s.len(),
        i < s.len() ==> s[i] == b,
        forall|j: int| 0 <= j < i ==> s[j] != b,
    ensures
        first_index(s, b) == i,
{
    lemma_first_index(s, b);
}

/// An owned copy of `s`.
pub fn copy_bytes(s: &[u8]) -> (out: Vec<u8>)
    ensures
        out@ == s@,
{
    let mut out: Vec<u8> = Vec::with_capacity(s.len());
    let mut i: usize = 0;
    while i < s.len()
        invariant
            i <= s.len(),
            out@ == s@.take(i as int),
        decreases s.len() - i,
    {
        out.push(s[i]);
        i += 1;
    }
    out
}

/// An owned copy of the bytes of `s` from `start` up to `end`.
pub(crate) fn copy_range(s: &[u8], start: usize, end: usize) -> (out: Vec<u8>)
    requires
        start <= end <= s.len(),
    ensures
        out@ == s@.subrange(start as int, end as int),
{
    let mut out: Vec<u8> = Vec::with_capacity(end - start);
    let mut i: usize = start;
    while i < end
        invariant
            start <= i <= end <= s.len(),
            out@ == s@.subrange(start as int, i as int),
        decreases end - i,
    {
        out.push(s[i]);
        i += 1;
    }
    out
}

/// The first `n` byte strings of `rows`, each as an owned copy.
pub(crate) fn copy_rows(rows: &Vec<Vec<u8>>, n: usize) -> (out: Vec<Vec<u8>>)
    requires
        n <= rows.len(),
    ensures
        byte_rows(out@) == byte_rows(rows@).take(n as int),
{
    let mut out: Vec<Vec<u8>> = Vec::new();
    let mut i: usize = 0;
    while i < n
        invariant
            i <= n <= rows.len(),
            byte_rows(out@) == byte_rows(rows@).take(i as int),
        decreases n - i,
    {
        let ghost before = byte_rows(out@);
        out.push(copy_bytes(rows[i].as_slice()));
        assert(byte_rows(out@) =~= before.push(rows@[i as int]@));
        assert(byte_rows(rows@).take(i + 1) =~= byte_rows(rows@).take(i as int).push(
            rows@[i as int]@,
        ));
        i += 1;
    }
    out
}

/// The offset of the first `b` in `s` at or after `from`, or the length of
/// `s` where none follows.
pub(crate) fn find_byte(s: &[u8], from: usize, b: u8) -> (at: usize)
    requires
        from <= s.len(),
    ensures
        at == from + first_index(s@.skip(from as int), b),
        from <= at <= s.len(),
{
    let mut i: usize = from;
    while i < s.len() && s[i] != b
        invariant
            from <= i <= s.len(),
            forall|j: int| from <= j < i ==> s@[j] != b,
        decreases s.len() - i,
    {
        i += 1;
    }
    proof {
        lemma_first_index_is(s@.skip(from as int), b, i - from);
    }
    i
}

/// The pieces of `s` between the occurrences of `sep`, each as an owned
/// copy.
pub fn split_bytes(s: &[u8], sep: u8) -> (pieces: Vec<Vec<u8>>)
    ensures
        byte_rows(pieces@) == split(s@, sep),
{
    let mut pieces: Vec<Vec<u8>> = Vec::new();
    let mut start: usize = 0;
    proof {
        assert(s@.skip(0) == s@);
        assert(byte_rows(pieces@) + split(s@, sep) =~= split(s@, sep));
    }
    loop
        invariant_except_break
            start <= s.len(),
            split(s@, sep) == byte_rows(pieces@) + split(s@.skip(start as int), sep),
        ensures
            byte_rows(pieces@) == split(s@, sep),
        decreases s.len() - start,
    {
        let end = find_byte(s, start, sep);
        let ghost before = byte_rows(pieces@);
        let ghost rest = s@.skip(start as int);
        pieces.push(copy_range(s, start, end));
        proof {
            assert(rest.take(end - start) == s@.subrange(start as int, end as int));
            assert(byte_rows(pieces@) =~= before.push(rest.take(end - start)));
        }
        if end == s.len() {
            proof {
                assert(rest.take(end - start) == rest);
                assert(before + seq![rest] =~= before.push(rest));
            }
            break ;
        }
        proof {
            assert(rest.skip(end - start + 1) == s@.skip(end + 1));
            assert(before + (seq![rest.take(end - start)] + split(s@.skip(end + 1), sep))
                =~= before.push(rest.take(end - start)) + split(s@.skip(end + 1), sep));
        }
        start = end + 1;
    }
    pieces
}

} // verus!
