//! Byte strings: search, and the strings that end in a NUL byte.

use vstd::prelude::*;

verus! {

/// The byte that ends a C string.
pub const NUL: u8 = 0;

/// The byte of `.`.
pub const DOT: u8 = 46;

/// The byte of `/`, which separates the parts of a path.
pub const SLASH: u8 = 47;

/// The first index from `from` on at which `s` holds `byte`, or the length of `s` if there is
/// none.
pub open spec fn find(s: Seq<u8>, byte: u8, from: int) -> int
    decreases s.len() - from,
{
    if from >= s.len() {
        s.len() as int
    } else if s[from] == byte {
        from
    } else {
        find(s, byte, from + 1)
    }
}

/// `find` gives an index in range, no byte before it matches, and the byte there does.
pub proof fn lemma_find(s: Seq<u8>, byte: u8, from: int)
    requires
        0 <= from,
    ensures
        find(s, byte, from) <= s.len(),
        from >= s.len() ==> find(s, byte, from) == s.len(),
        from <= s.len() ==> from <= find(s, byte, from),
        find(s, byte, from) < s.len() ==> s[find(s, byte, from)] == byte,
        forall|i: int| from <= i < find(s, byte, from) ==> s[i] != byte,
    decreases s.len() - from,
{
    if from < s.len() && s[from] != byte {
        lemma_find(s, byte, from + 1);
    }
}

/// Finds the first `byte` in `s` from index `from` on; without one, gives the length of `s`.
pub fn find_byte(s: &[u8], byte: u8, from: usize) -> (r: usize)
    ensures
        r == find(s@, byte, from as int),
        r <= s@.len(),
        r < s@.len() ==> from <= r && s@[r as int] == byte,
        forall|i: int| from <= i < r ==> s@[i] != byte,
{
    proof {
        lemma_find(s@, byte, from as int);
    }
    let mut i: usize = from;
    while i < s.len() && s[i] != byte
        invariant
            from <= i,
            i <= s@.len() || i == from,
            find(s@, byte, i as int) == find(s@, byte, from as int),
        decreases s@.len() - i,
    {
        i += 1;
    }
    if i < s.len() {
        i
    } else {
        s.len()
    }
}

/// Whether `s` is a C string: its last byte, and no other, is NUL.
pub open spec fn is_cstr(s: Seq<u8>) -> bool {
    &&& s.len() > 0
    &&& s.last() == NUL
    &&& forall|i: int| 0 <= i < s.len() - 1 ==> s[i] != NUL
}

/// The C string that `raw` begins with: all up to the first NUL byte, and that byte.
pub open spec fn leading_cstr(raw: Seq<u8>) -> Seq<u8> {
    raw.take(find(raw, NUL, 0) + 1)
}

/// The C string that a buffer with a NUL byte begins with is one.
pub proof fn lemma_leading_cstr(raw: Seq<u8>)
    requires
        raw.contains(NUL),
    ensures
        find(raw, NUL, 0) < raw.len(),
        is_cstr(leading_cstr(raw)),
{
    lemma_find(raw, NUL, 0);
    let k = choose|k: int| 0 <= k < raw.len() && raw[k] == NUL;
    assert(raw[k] == NUL);
}

/// How many bytes before the NUL fit when a C string of `src_len` bytes, its NUL among them, is
/// copied to `room` bytes.
pub open spec fn cstr_fit(room: int, src_len: int) -> int {
    if room == 0 {
        0
    } else if src_len <= room {
        src_len - 1
    } else {
        room - 1
    }
}

/// What `dest` holds once the C string `src` was copied to its start, cut to fit and ended by a
/// NUL byte. Without room not even the NUL byte is written.
pub open spec fn cstr_copied(dest: Seq<u8>, src: Seq<u8>) -> Seq<u8> {
    let n = cstr_fit(dest.len() as int, src.len() as int);
    if dest.len() == 0 {
        dest
    } else {
        src.take(n) + seq![NUL] + dest.skip(n + 1)
    }
}

/// Copies the C string `src` to the start of `dest`, cut to fit and ended by a NUL byte. Returns
/// how many bytes were copied before the NUL.
pub fn copy_cstr(dest: &mut [u8], src: &[u8]) -> (r: usize)
    requires
        is_cstr(src@),
    ensures
        r == cstr_fit(old(dest)@.len() as int, src@.len() as int),
        final(dest)@ == cstr_copied(old(dest)@, src@),
        final(dest)@.len() == old(dest)@.len(),
        old(dest)@.len() == 0 ==> r == 0,
        src@.len() <= old(dest)@.len() ==> r == src@.len() - 1,
        0 < old(dest)@.len() < src@.len() ==> r == old(dest)@.len() - 1,
        forall|i: int| 0 <= i < r ==> final(dest)@[i] == src@[i],
        old(dest)@.len() > 0 ==> final(dest)@[r as int] == 0,
        forall|i: int| r < i < old(dest)@.len() ==> final(dest)@[i] == old(dest)@[i],
{
    let room: usize = dest.len();
    if room == 0 {
        return 0;
    }
    let n: usize = if src.len() <= room {
        src.len() - 1
    } else {
        room - 1
    };
    let ghost before = dest@;
    let mut i: usize = 0;
    while i < n
        invariant
            i <= n,
            n < room,
            n < src@.len(),
            dest@.len() == room,
            before.len() == room,
            dest@ == src@.take(i as int) + before.skip(i as int),
        decreases n - i,
    {
        dest[i] = src[i];
        i += 1;
    }
    dest[n] = NUL;
    assert(dest@ =~= cstr_copied(before, src@));
    n
}

/// A C string that fits is copied whole, and its copy reads back as it was.
pub proof fn law_copy_reads_back(dest: Seq<u8>, src: Seq<u8>)
    requires
        is_cstr(src),
        src.len() <= dest.len(),
    ensures
        leading_cstr(cstr_copied(dest, src)) == src,
        cstr_copied(dest, src).skip(src.len() as int) == dest.skip(src.len() as int),
{
    let copy = cstr_copied(dest, src);
    let n = src.len() - 1;
    lemma_find(copy, NUL, 0);
    assert(copy[n] == NUL);
    assert forall|i: int| 0 <= i < n implies copy[i] != NUL by {
        assert(copy[i] == src[i]);
    }
    assert(find(copy, NUL, 0) == n);
    assert(leading_cstr(copy) =~= src);
    assert(copy.skip(src.len() as int) =~= dest.skip(src.len() as int));
}

/// What a copy leaves at each place of the buffer: the bytes of the C string as far as they fit
/// with a NUL byte after them, that byte, and then what was there.
pub proof fn law_copy_byte_by_byte(dest: Seq<u8>, src: Seq<u8>)
    requires
        is_cstr(src),
    ensures
        ({
            let copy = cstr_copied(dest, src);
            let n = cstr_fit(dest.len() as int, src.len() as int);
            &&& copy.len() == dest.len()
            &&& dest.len() == 0 ==> n == 0
            &&& src.len() <= dest.len() ==> n == src.len() - 1
            &&& 0 < dest.len() < src.len() ==> n == dest.len() - 1
            &&& forall|i: int| 0 <= i < n ==> copy[i] == src[i]
            &&& dest.len() > 0 ==> copy[n] == 0
            &&& forall|i: int| n < i < dest.len() ==> copy[i] == dest[i]
        }),
{
}

/// A text is made a C string by a NUL byte after it, just if it holds none. There are no other C
/// strings.
pub proof fn law_cstr_is_text_and_nul(text: Seq<u8>, last: u8)
    ensures
        is_cstr(text.push(last)) <==> last == 0 && !text.contains(0),
        !is_cstr(Seq::empty()),
{
    let s = text.push(last);
    if is_cstr(s) {
        assert forall|i: int| 0 <= i < text.len() implies text[i] != 0 by {
            assert(s[i] == text[i]);
        }
    } else if last == 0 {
        let i = choose|i: int| 0 <= i < s.len() - 1 && s[i] == NUL;
        assert(text[i] == 0);
    }
}

/// The C string that a buffer begins with is the text before its first NUL byte, and that byte,
/// whatever comes after it.
pub proof fn law_leading_cstr_ends_at_nul(text: Seq<u8>, rest: Seq<u8>)
    requires
        !text.contains(0),
    ensures
        leading_cstr(text.push(0) + rest) == text.push(0),
{
    let raw = text.push(0) + rest;
    lemma_find(raw, NUL, 0);
    assert(raw[text.len() as int] == 0);
    assert forall|i: int| 0 <= i < text.len() implies raw[i] != 0 by {
        assert(raw[i] == text[i]);
    }
    assert(leading_cstr(raw) =~= text.push(0));
}

/// A copy never changes the length of the buffer, and begins with a C string whenever there is
/// room for one.
pub proof fn law_copy_is_terminated(dest: Seq<u8>, src: Seq<u8>)
    requires
        is_cstr(src),
    ensures
        cstr_copied(dest, src).len() == dest.len(),
        dest.len() > 0 ==> is_cstr(leading_cstr(cstr_copied(dest, src))),
        dest.len() > 0 ==> leading_cstr(cstr_copied(dest, src)).len() == cstr_fit(
            dest.len() as int,
            src.len() as int,
        ) + 1,
{
    if dest.len() > 0 {
        let copy = cstr_copied(dest, src);
        let n = cstr_fit(dest.len() as int, src.len() as int);
        assert(copy[n] == NUL);
        assert(copy.contains(NUL));
        lemma_leading_cstr(copy);
        lemma_find(copy, NUL, 0);
        assert forall|i: int| 0 <= i < n implies copy[i] != NUL by {
            assert(copy[i] == src[i]);
        }
    }
}

} // verus!
