use vstd::prelude::*;
use vstd::string::StringSliceAdditionalSpecFns;
use crate::console::{Effect, text, putstr};

verus! {

/// Room given to the strings that the shell builds from other strings
/// (command words, arguments, file names).
pub const STR_SIZE: usize = 256;

/// A bounded byte string: the bytes written so far and the room it was made with.
/// Each string owns its bytes; a copy (`clone`, `copy`, a file taken by `get_file`)
/// holds bytes of its own, and writing to one string never changes another.
#[allow(non_camel_case_types)]
pub struct cstr {
    bytes: Vec<u8>,
    max: usize,
}

/// `s` cut to its first `n` bytes.
pub open spec fn clip(s: Seq<u8>, n: nat) -> Seq<u8> {
    if s.len() <= n { s } else { s.take(n as int) }
}

/// What adding one byte does to a string with room `max`: the byte goes in
/// while there is room, and is dropped otherwise.
pub open spec fn push_room(s: Seq<u8>, max: nat, x: u8) -> Seq<u8> {
    if s.len() < max { s.push(x) } else { s }
}

/// The byte a character stands for where it is taken as one: its low eight bits.
pub open spec fn low_byte(c: char) -> u8 {
    (c as u32 % 256) as u8
}


/// Index of the first `d` in `s` at or after `i`, or the length of `s` where there is none.
pub open spec fn first_from(s: Seq<u8>, d: u8, i: int) -> int
    decreases s.len() - i,
{
    if i >= s.len() {
        s.len() as int
    } else if s[i] == d {
        i
    } else {
        first_from(s, d, i + 1)
    }
}

/// The field that starts at `p` and has `k` more delimiters before it, if there are that many.
pub open spec fn field_at(s: Seq<u8>, d: u8, p: int, k: nat) -> Option<Seq<u8>>
    decreases k,
{
    let e = first_from(s, d, p);
    if k == 0 {
        Some(s.subrange(p, e))
    } else if e < s.len() {
        field_at(s, d, e + 1, (k - 1) as nat)
    } else {
        None
    }
}

/// Field `k` (from 0) of `s` split at each `d`, or `None` where `s` has fewer than `k` of them.
pub open spec fn field(s: Seq<u8>, d: u8, k: nat) -> Option<Seq<u8>> {
    field_at(s, d, 0, k)
}

/// What `getarg` finds in a string with bytes `s` and room `max`: field `k`, cut to
/// the room of a new argument string. A full string (`s.len() == max > 0`) is searched
/// only up to its last byte, so its last field, which no delimiter closes, is not found.
pub open spec fn arg_of(s: Seq<u8>, max: nat, d: u8, k: nat) -> Option<Seq<u8>> {
    match field(s, d, k) {
        None => None,
        Some(f) => if s.len() == max && max > 0 && field(s, d, k + 1) is None {
            None
        } else {
            Some(clip(f, STR_SIZE as nat))
        },
    }
}

/// Whether `getarg` runs to the end of a full string (`s.len() == max > 0`) without
/// finding the delimiter that would close field `k`: it then says so and finds nothing.
pub open spec fn runs_out(s: Seq<u8>, max: nat, d: u8, k: nat) -> bool {
    s.len() == max && max > 0 && field(s, d, k + 1) is None
}

/// What `getarg` prints where it runs out.
pub open spec fn broke_text(s: Seq<u8>, max: nat, d: u8, k: nat) -> Seq<Effect> {
    if runs_out(s, max, d, k) { text("\nSomething broke!".spec_bytes()) } else { Seq::empty() }
}

/// The bytes of `s` before its first `d` (all of `s` where there is none).
pub open spec fn before_delim(s: Seq<u8>, d: u8) -> Seq<u8> {
    s.take(first_from(s, d, 0))
}

/// The bytes of `s` after its first `d` (none where there is no `d`).
pub open spec fn after_delim(s: Seq<u8>, d: u8) -> Seq<u8> {
    let e = first_from(s, d, 0);
    if e < s.len() { s.subrange(e + 1, s.len() as int) } else { Seq::empty() }
}

/// `s` with every `d` taken out.
pub open spec fn without(s: Seq<u8>, d: u8) -> Seq<u8>
    decreases s.len(),
{
    if s.len() == 0 {
        s
    } else if s.last() == d {
        without(s.drop_last(), d)
    } else {
        without(s.drop_last(), d).push(s.last())
    }
}

/// Whether the four bytes of `s` from `i` on are zero, bytes past its end counting as
/// zero. A string's end is marked by one four-byte `char` of zero, and the routines
/// that walk a string look for that mark one `char` at a time.
pub open spec fn zero_word_at(s: Seq<u8>, i: int) -> bool {
    forall|j: int| i <= j < i + 4 && 0 <= j < s.len() ==> #[trigger] s[j] == 0
}

/// The first place at or after `i` where four zero bytes stand (see `zero_word_at`),
/// or the length of `s`.
pub open spec fn end_from(s: Seq<u8>, i: int) -> int
    decreases s.len() - i,
{
    if i >= s.len() || zero_word_at(s, i) {
        i
    } else {
        end_from(s, i + 1)
    }
}

/// The text a string with bytes `s` reads as: its bytes before the first four zero
/// bytes in a row.
pub open spec fn text_of(s: Seq<u8>) -> Seq<u8> {
    s.take(end_from(s, 0))
}

/// Whether a string with bytes `s` reads as `o`: `o` stands at its front, and four zero
/// bytes follow it.
pub open spec fn reads_as(s: Seq<u8>, o: Seq<u8>) -> bool {
    &&& o.len() <= s.len()
    &&& s.take(o.len() as int) == o
    &&& zero_word_at(s, o.len() as int)
}

/// Whether `o` can be held against a string with bytes `s` byte by byte: where `o` is
/// the longer, its byte at the end of `s` is not zero, so the comparison stops at the
/// end mark of `s` and reads nothing past it.
pub open spec fn comparable(s: Seq<u8>, o: Seq<u8>) -> bool {
    o.len() <= s.len() || o[s.len() as int] != 0
}

/// Whether no byte of `s` is zero.
pub open spec fn no_zero(s: Seq<u8>) -> bool {
    forall|i: int| 0 <= i < s.len() ==> #[trigger] s[i] != 0
}

/// The end found is in range, four zero bytes stand there, and none stand before it from `i`.
pub proof fn lemma_end_from(s: Seq<u8>, i: int)
    requires
        0 <= i <= s.len(),
    ensures
        i <= end_from(s, i) <= s.len(),
        zero_word_at(s, end_from(s, i)),
        forall|j: int| i <= j < end_from(s, i) ==> !zero_word_at(s, j),
    decreases s.len() - i,
{
    if i < s.len() && !zero_word_at(s, i) {
        lemma_end_from(s, i + 1);
    }
}

/// A string with no zero byte reads as all of its bytes.
pub proof fn lemma_text_of_no_zero(s: Seq<u8>)
    requires
        no_zero(s),
    ensures
        text_of(s) == s,
        reads_as(s, s),
{
    lemma_end_from(s, 0);
    if end_from(s, 0) < s.len() {
        let e = end_from(s, 0);
        assert(s[e] != 0);
    }
    assert(s.take(s.len() as int) =~= s);
}

/// The text of a string reads as itself.
pub proof fn lemma_text_of_text(s: Seq<u8>)
    ensures
        text_of(text_of(s)) == text_of(s),
{
    lemma_end_from(s, 0);
    let e = end_from(s, 0);
    let t = text_of(s);
    lemma_end_from(t, 0);
    let f = end_from(t, 0);
    if f < e {
        assert(zero_word_at(s, f)) by {
            assert forall|j: int| f <= j < f + 4 && 0 <= j < s.len() implies #[trigger] s[j] == 0 by {
                if j < e {
                    assert(t[j] == s[j]);
                } else {
                    assert(e <= j < e + 4);
                }
            }
        }
    }
    assert(t.take(f) =~= t);
}

/// A string reads as the empty string exactly where its text is empty.
pub proof fn lemma_reads_as_empty(s: Seq<u8>)
    ensures
        reads_as(s, "".spec_bytes()) == (text_of(s).len() == 0),
{
    lemma_empty_str();
    lemma_end_from(s, 0);
    assert(s.take(0) =~= Seq::<u8>::empty());
}

/// The words the shell compares its line and its arguments with hold no zero byte.
pub proof fn lemma_words_have_no_zero()
    ensures
        no_zero("ls".spec_bytes()),
        no_zero("pwd".spec_bytes()),
        no_zero("click".spec_bytes()),
        no_zero("movewin".spec_bytes()),
        no_zero("cat".spec_bytes()),
        no_zero("mv".spec_bytes()),
        no_zero("echo".spec_bytes()),
        no_zero("cd".spec_bytes()),
        no_zero("rm".spec_bytes()),
        no_zero("mkdir".spec_bytes()),
        no_zero("wr".spec_bytes()),
        no_zero("".spec_bytes()),
{
    broadcast use vstd::string::is_ascii_spec_bytes;
    reveal_strlit("ls");
    reveal_strlit("pwd");
    reveal_strlit("click");
    reveal_strlit("movewin");
    reveal_strlit("cat");
    reveal_strlit("mv");
    reveal_strlit("echo");
    reveal_strlit("cd");
    reveal_strlit("rm");
    reveal_strlit("mkdir");
    reveal_strlit("wr");
    reveal_strlit("");
    assert(vstd::string::is_ascii("ls"));
    assert(vstd::string::is_ascii("pwd"));
    assert(vstd::string::is_ascii("click"));
    assert(vstd::string::is_ascii("movewin"));
    assert(vstd::string::is_ascii("cat"));
    assert(vstd::string::is_ascii("mv"));
    assert(vstd::string::is_ascii("echo"));
    assert(vstd::string::is_ascii("cd"));
    assert(vstd::string::is_ascii("rm"));
    assert(vstd::string::is_ascii("mkdir"));
    assert(vstd::string::is_ascii("wr"));
    assert(vstd::string::is_ascii(""));
}

/// The position found is in range, holds `d` where it is below the length, and no byte before it from `i` is `d`.
pub proof fn lemma_first_from(s: Seq<u8>, d: u8, i: int)
    requires
        0 <= i <= s.len(),
    ensures
        i <= first_from(s, d, i) <= s.len(),
        first_from(s, d, i) < s.len() ==> s[first_from(s, d, i)] == d,
        forall|j: int| i <= j < first_from(s, d, i) ==> s[j] != d,
    decreases s.len() - i,
{
    if i < s.len() && s[i] != d {
        lemma_first_from(s, d, i + 1);
    }
}

/// The empty string literal holds no bytes.
pub proof fn lemma_empty_str()
    ensures
        "".spec_bytes() == Seq::<u8>::empty(),
{
    reveal_strlit("");
    assert(""@ =~= Seq::<char>::empty());
    assert("".spec_bytes() =~= Seq::<u8>::empty());
}

/// Cutting a string after a push is pushing onto the cut string while there is room.
pub proof fn lemma_clip_push(s: Seq<u8>, n: nat, x: u8)
    ensures clip(s.push(x), n) == push_room(clip(s, n), n, x),
{
    if s.len() < n {
    } else {
        assert(clip(s.push(x), n) =~= clip(s, n));
    }
}

/// A byte added where there is room, then deleted, leaves the string as it was.
pub proof fn lemma_add_then_delete(s: Seq<u8>, max: nat, x: u8)
    requires
        s.len() < max,
    ensures
        push_room(s, max, x).drop_last() == s,
{
    assert(s.push(x).drop_last() =~= s);
}

/// Every change that the string operations make keeps a string within its room:
/// adding a byte, deleting one, putting a word in front, and copying a word in.
pub proof fn lemma_room_kept(s: Seq<u8>, max: nat, x: u8, w: Seq<u8>)
    requires
        s.len() <= max,
    ensures
        push_room(s, max, x).len() <= max,
        s.len() > 0 ==> s.drop_last().len() <= max,
        s.len() + w.len() < max ==> (w + s).len() <= max,
        clip(w, max).len() <= max,
{
}

/// Where `getarg` does not run out, field 0 that it finds is the part that
/// `splitonce` and `split` give before the delimiter.
pub proof fn lemma_first_field_is_first_part(s: Seq<u8>, max: nat, d: u8)
    requires
        !runs_out(s, max, d, 0),
    ensures
        arg_of(s, max, d, 0) == Some(clip(before_delim(s, d), STR_SIZE as nat)),
{
    lemma_first_from(s, d, 0);
    assert(s.subrange(0, first_from(s, d, 0)) =~= s.take(first_from(s, d, 0)));
}

impl View for cstr {
    type V = Seq<u8>;

    closed spec fn view(&self) -> Seq<u8> {
        self.bytes@
    }
}

impl cstr {
    /// The room the string was made with.
    pub closed spec fn max_len(&self) -> nat {
        self.max as nat
    }

    /// The bytes never exceed the room.
    pub open spec fn wf(&self) -> bool {
        self@.len() <= self.max_len()
    }

    /// An empty string of room `size`.
    pub fn new(size: usize) -> (r: cstr)
        ensures
            r@ == Seq::<u8>::empty(),
            r.max_len() == size,
    {
        cstr { bytes: Vec::new(), max: size }
    }

    /// The number of bytes.
    pub fn len(&self) -> (r: usize)
        ensures
            r == self@.len(),
    {
        self.bytes.len()
    }

    /// Adds `x` at the end where there is room.
    pub fn add_char(&mut self, x: u8) -> (r: bool)
        ensures
            r == (old(self)@.len() < old(self).max_len()),
            final(self)@ == push_room(old(self)@, old(self).max_len(), x),
            final(self).max_len() == old(self).max_len(),
    {
        if self.bytes.len() >= self.max {
            return false;
        }
        self.bytes.push(x);
        true
    }

    /// Room the string was made with.
    pub fn max(&self) -> (r: usize)
        ensures
            r == self.max_len(),
    {
        self.max
    }

    /// The byte at position `i`.
    pub fn byte_at(&self, i: usize) -> (r: u8)
        requires
            i < self@.len(),
        ensures
            r == self@[i as int],
    {
        self.bytes[i]
    }

    /// Takes the last byte off, where there is one.
    pub fn delete_char(&mut self) -> (r: bool)
        ensures
            r == (old(self)@.len() > 0),
            final(self)@ == (if r { old(self)@.drop_last() } else { old(self)@ }),
            final(self).max_len() == old(self).max_len(),
    {
        if self.bytes.len() == 0 {
            return false;
        }
        self.bytes.pop();
        true
    }

    /// Empties the string.
    pub fn reset(&mut self)
        ensures
            final(self)@ == Seq::<u8>::empty(),
            final(self).max_len() == old(self).max_len(),
    {
        self.bytes = Vec::new();
    }

    /// Whether the four bytes from `i` on are zero, bytes past the end counting as zero.
    fn zero_word(&self, i: usize) -> (r: bool)
        requires
            i <= self@.len(),
        ensures
            r == zero_word_at(self@, i as int),
    {
        let n = self.bytes.len();
        let mut j = i;
        while j < n && j - i < 4
            invariant
                i <= j <= n,
                n == self@.len(),
                j - i <= 4,
                forall|t: int| i <= t < j ==> self@[t] == 0,
            decreases n - j,
        {
            if self.bytes[j] != 0 {
                return false;
            }
            j += 1;
        }
        true
    }

    /// How many bytes the string reads as: those before its first four zero bytes in a row.
    pub fn text_len(&self) -> (r: usize)
        ensures
            r == end_from(self@, 0),
            r <= self@.len(),
    {
        proof { lemma_end_from(self@, 0); }
        let n = self.bytes.len();
        let mut i: usize = 0;
        while i < n && !self.zero_word(i)
            invariant
                i <= n,
                n == self@.len(),
                end_from(self@, i as int) == end_from(self@, 0),
            decreases n - i,
        {
            i += 1;
        }
        i
    }

    /// The text the string reads as, in a string of the same room.
    pub fn content(&self) -> (r: cstr)
        ensures
            r@ == text_of(self@),
            r.max_len() == self.max_len(),
    {
        let e = self.text_len();
        let mut b: Vec<u8> = Vec::new();
        let mut i: usize = 0;
        while i < e
            invariant
                i <= e,
                e <= self@.len(),
                b@ == self@.take(i as int),
            decreases e - i,
        {
            b.push(self.bytes[i]);
            i += 1;
            proof { assert(b@ =~= self@.take(i as int)); }
        }
        cstr { bytes: b, max: self.max }
    }

    /// Puts `word` in front of the string where both fit in its room with a byte to
    /// spare; leaves it as it was otherwise.
    pub fn concatfront(&mut self, word: &cstr) -> (r: bool)
        ensures
            r == (old(self)@.len() + word@.len() < old(self).max_len()),
            final(self)@ == (if r { word@ + old(self)@ } else { old(self)@ }),
            final(self).max_len() == old(self).max_len(),
    {
        let n = self.bytes.len();
        let m = word.bytes.len();
        if n >= self.max || m >= self.max - n {
            return false;
        }
        let mut b: Vec<u8> = Vec::new();
        let mut i: usize = 0;
        while i < m
            invariant
                i <= m,
                m == word@.len(),
                b@ == word@.take(i as int),
            decreases m - i,
        {
            b.push(word.bytes[i]);
            i += 1;
            proof { assert(b@ =~= word@.take(i as int)); }
        }
        let mut j: usize = 0;
        while j < n
            invariant
                j <= n,
                n == self@.len(),
                m == word@.len(),
                b@ == word@ + self@.take(j as int),
            decreases n - j,
        {
            proof { assert(word@.take(m as int) =~= word@); }
            b.push(self.bytes[j]);
            j += 1;
            proof { assert(b@ =~= word@ + self@.take(j as int)); }
        }
        proof {
            assert(word@.take(m as int) =~= word@);
            assert(self@.take(n as int) =~= self@);
        }
        self.bytes = b;
        true
    }

    /// Writes the text of the string over the front of `x`, followed by the three bytes
    /// of its end mark that the last four-byte write carries; writes nothing where the
    /// text is empty.
    pub fn place_in_mem(&self, x: &mut Vec<u8>)
        requires
            end_from(self@, 0) > 0 ==> end_from(self@, 0) + 3 <= old(x)@.len(),
        ensures
            final(x)@ == (if text_of(self@).len() > 0 {
                text_of(self@) + seq![0u8, 0u8, 0u8] + old(x)@.skip(text_of(self@).len() as int + 3)
            } else {
                old(x)@
            }),
    {
        proof { lemma_end_from(self@, 0); }
        let t = self.content();
        let n = t.bytes.len();
        if n == 0 {
            return;
        }
        let mut i: usize = 0;
        while i < n
            invariant
                i <= n,
                n == t@.len(),
                n + 3 <= old(x)@.len(),
                x@.len() == old(x)@.len(),
                x@ == t@.take(i as int) + old(x)@.skip(i as int),
            decreases n - i,
        {
            x.set(i, t.bytes[i]);
            proof {
                assert(x@ =~= t@.take(i as int + 1) + old(x)@.skip(i as int + 1));
            }
            i += 1;
        }
        let xl = x.len();
        assert(n + 3 <= xl);
        x.set(n, 0);
        x.set(n + 1, 0);
        x.set(n + 2, 0);
        proof {
            assert(t@.take(n as int) =~= t@);
            assert(x@ =~= t@ + seq![0u8, 0u8, 0u8] + old(x)@.skip(n as int + 3));
        }
    }

    /// Makes the string hold the text of `word`, as much of it as its room takes.
    pub fn copy(&mut self, word: &cstr)
        ensures
            final(self)@ == clip(text_of(word@), old(self).max_len()),
            final(self).max_len() == old(self).max_len(),
    {
        let t = word.content();
        self.reset();
        let n = t.bytes.len();
        let mut i: usize = 0;
        while i < n
            invariant
                i <= n,
                n == t@.len(),
                self.max_len() == old(self).max_len(),
                self@ == clip(t@.take(i as int), self.max_len()),
            decreases n - i,
        {
            proof {
                lemma_clip_push(t@.take(i as int), self.max_len(), t@[i as int]);
                assert(t@.take(i as int + 1) =~= t@.take(i as int).push(t@[i as int]));
            }
            self.add_char(t.bytes[i]);
            i += 1;
        }
        proof { assert(t@.take(n as int) =~= t@); }
    }

    /// Whether both strings hold the same bytes.
    pub fn eq(&self, other: &cstr) -> (r: bool)
        ensures
            r == (self@ == other@),
    {
        let n = self.bytes.len();
        if n != other.bytes.len() {
            return false;
        }
        let mut i: usize = 0;
        while i < n
            invariant
                i <= n,
                n == self@.len(),
                n == other@.len(),
                forall|j: int| 0 <= j < i ==> self@[j] == other@[j],
            decreases n - i,
        {
            if self.bytes[i] != other.bytes[i] {
                return false;
            }
            i += 1;
        }
        proof { assert(self@ =~= other@); }
        true
    }

    /// Whether the string reads as `other`: its bytes begin with those of `other`, and
    /// four zero bytes follow them.
    pub fn streq(&self, other: &str) -> (r: bool)
        requires
            comparable(self@, other.spec_bytes()),
        ensures
            r == reads_as(self@, other.spec_bytes()),
    {
        let o = other.as_bytes();
        let n = self.bytes.len();
        let m = o.len();
        if m > n {
            return false;
        }
        let mut i: usize = 0;
        while i < m
            invariant
                i <= m,
                m <= n,
                n == self@.len(),
                m == o@.len(),
                o@ == other.spec_bytes(),
                forall|j: int| 0 <= j < i ==> self@[j] == o@[j],
            decreases m - i,
        {
            if self.bytes[i] != o[i] {
                return false;
            }
            i += 1;
        }
        proof { assert(self@.take(m as int) =~= o@); }
        self.zero_word(m)
    }

    /// Position of the first `d` at or after `from`, or the length where there is none.
    fn find_delim(&self, d: u8, from: usize) -> (e: usize)
        requires
            from <= self@.len(),
        ensures
            e == first_from(self@, d, from as int),
            from <= e <= self@.len(),
    {
        proof { lemma_first_from(self@, d, from as int); }
        let n = self.bytes.len();
        let mut i = from;
        while i < n && self.bytes[i] != d
            invariant
                from <= i <= n,
                n == self@.len(),
                first_from(self@, d, i as int) == first_from(self@, d, from as int),
            decreases n - i,
        {
            i += 1;
        }
        i
    }

    /// A new argument-sized string holding bytes `from..to` of this one, cut to its room.
    fn piece(&self, from: usize, to: usize) -> (r: cstr)
        requires
            from <= to <= self@.len(),
        ensures
            r@ == clip(self@.subrange(from as int, to as int), STR_SIZE as nat),
            r.max_len() == STR_SIZE,
    {
        let mut r = cstr::new(STR_SIZE);
        let mut i = from;
        while i < to
            invariant
                from <= i <= to,
                to <= self@.len(),
                r.max_len() == STR_SIZE,
                r@ == clip(self@.subrange(from as int, i as int), STR_SIZE as nat),
            decreases to - i,
        {
            proof {
                lemma_clip_push(self@.subrange(from as int, i as int), STR_SIZE as nat, self@[i as int]);
                assert(self@.subrange(from as int, i as int + 1)
                    =~= self@.subrange(from as int, i as int).push(self@[i as int]));
            }
            r.add_char(self.bytes[i]);
            i += 1;
        }
        r
    }

    /// Field `k` of the bytes split at `delim` (see `arg_of`); where the string is full
    /// and the field runs to its end, says that something broke.
    fn getarg_in(&self, delim: char, k: usize, out: &mut Vec<Effect>) -> (r: Option<cstr>)
        ensures
            final(out)@ == old(out)@ + broke_text(self@, self.max_len(), low_byte(delim), k as nat),
            match r {
                None => arg_of(self@, self.max_len(), low_byte(delim), k as nat) is None,
                Some(a) => arg_of(self@, self.max_len(), low_byte(delim), k as nat) == Some(a@)
                    && a.max_len() == STR_SIZE,
            },
    {
        let d = ((delim as u32) % 256) as u8;
        let ghost s = self@;
        let n = self.bytes.len();
        let mut pos: usize = 0;
        let mut j: usize = 0;
        while j < k
            invariant
                pos <= n,
                n == s.len(),
                s == self@,
                d == low_byte(delim),
                out@ == old(out)@,
                j <= k,
                field(s, d, k as nat) == field_at(s, d, pos as int, (k - j) as nat),
                field(s, d, (k + 1) as nat) == field_at(s, d, pos as int, (k + 1 - j) as nat),
            decreases k - j,
        {
            let e = self.find_delim(d, pos);
            if e == n {
                if n == self.max && self.max > 0 {
                    putstr("\nSomething broke!", out);
                } else {
                    assert(out@ =~= old(out)@ + Seq::<Effect>::empty());
                }
                return None;
            }
            pos = e + 1;
            j += 1;
        }
        let e = self.find_delim(d, pos);
        proof {
            assert(j == k);
            assert(field(s, d, k as nat) == Some(s.subrange(pos as int, e as int)));
            assert((k + 1 - j) as nat == 1);
            if e < n {
                assert(field_at(s, d, e as int + 1, 0) is Some);
            }
            assert(field(s, d, (k + 1) as nat) is Some <==> e < n);
        }
        if e == n && n == self.max && self.max > 0 {
            putstr("\nSomething broke!", out);
            return None;
        }
        assert(out@ =~= old(out)@ + Seq::<Effect>::empty());
        Some(self.piece(pos, e))
    }

    /// The bytes before the first `delim`, and every byte after it that is not `delim`.
    fn split_in(&self, delim: char) -> (r: (cstr, cstr))
        ensures
            r.0@ == clip(before_delim(self@, low_byte(delim)), STR_SIZE as nat),
            r.1@ == clip(without(after_delim(self@, low_byte(delim)), low_byte(delim)), STR_SIZE as nat),
            r.0.max_len() == STR_SIZE,
            r.1.max_len() == STR_SIZE,
    {
        let d = ((delim as u32) % 256) as u8;
        let ghost s = self@;
        let ghost fd = first_from(s, d, 0);
        proof { lemma_first_from(s, d, 0); }
        let n = self.bytes.len();
        let mut beg = cstr::new(STR_SIZE);
        let mut end = cstr::new(STR_SIZE);
        let mut found = false;
        let mut i: usize = 0;
        while i < n
            invariant
                i <= n,
                n == s.len(),
                s == self@,
                d == low_byte(delim),
                fd == first_from(s, d, 0),
                0 <= fd <= n,
                fd < n ==> s[fd] == d,
                forall|j: int| 0 <= j < fd ==> s[j] != d,
                found == (i > fd),
                beg.max_len() == STR_SIZE,
                end.max_len() == STR_SIZE,
                beg@ == clip(s.take(if i <= fd { i as int } else { fd }), STR_SIZE as nat),
                end@ == (if i > fd { clip(without(s.subrange(fd + 1, i as int), d), STR_SIZE as nat) } else { Seq::empty() }),
            decreases n - i,
        {
            let b = self.bytes[i];
            if b == d {
                if !found {
                    assert(i == fd);
                    assert(s.subrange(fd + 1, i as int + 1) =~= Seq::<u8>::empty());
                } else {
                    assert(s.subrange(fd + 1, i as int + 1).drop_last() =~= s.subrange(fd + 1, i as int));
                }
                found = true;
            } else if !found {
                proof {
                    lemma_clip_push(s.take(i as int), STR_SIZE as nat, b);
                    assert(s.take(i as int + 1) =~= s.take(i as int).push(b));
                }
                beg.add_char(b);
            } else {
                proof {
                    let t = s.subrange(fd + 1, i as int);
                    assert(s.subrange(fd + 1, i as int + 1).drop_last() =~= t);
                    lemma_clip_push(without(t, d), STR_SIZE as nat, b);
                }
                end.add_char(b);
            }
            i += 1;
        }
        proof {
            if fd < n {
            } else {
                assert(s.take(fd) =~= s.take(n as int));
            }
        }
        (beg, end)
    }

    /// The bytes before the first `delim`, and all the bytes after it.
    fn splitonce_in(&self, delim: char) -> (r: (cstr, cstr))
        ensures
            r.0@ == clip(before_delim(self@, low_byte(delim)), STR_SIZE as nat),
            r.1@ == clip(after_delim(self@, low_byte(delim)), STR_SIZE as nat),
            r.0.max_len() == STR_SIZE,
            r.1.max_len() == STR_SIZE,
    {
        let d = ((delim as u32) % 256) as u8;
        let fd = self.find_delim(d, 0);
        let n = self.bytes.len();
        let beg = self.piece(0, fd);
        let end = if fd < n { self.piece(fd + 1, n) } else { cstr::new(STR_SIZE) };
        proof {
            assert(self@.subrange(0, fd as int) =~= self@.take(fd as int));
        }
        (beg, end)
    }

    /// Field `k` of the text split at `delim` (see `arg_of`); where the text fills the
    /// string's room and the field runs to its end, says that something broke.
    pub fn getarg(&self, delim: char, k: usize, out: &mut Vec<Effect>) -> (r: Option<cstr>)
        ensures
            final(out)@ == old(out)@ + broke_text(text_of(self@), self.max_len(), low_byte(delim), k as nat),
            match r {
                None => arg_of(text_of(self@), self.max_len(), low_byte(delim), k as nat) is None,
                Some(a) => arg_of(text_of(self@), self.max_len(), low_byte(delim), k as nat) == Some(a@)
                    && a.max_len() == STR_SIZE,
            },
    {
        self.content().getarg_in(delim, k, out)
    }

    /// The text before its first `delim`, and every byte of the text after it that is not `delim`.
    pub fn split(&self, delim: char) -> (r: (cstr, cstr))
        ensures
            r.0@ == clip(before_delim(text_of(self@), low_byte(delim)), STR_SIZE as nat),
            r.1@ == clip(without(after_delim(text_of(self@), low_byte(delim)), low_byte(delim)), STR_SIZE as nat),
            r.0.max_len() == STR_SIZE,
            r.1.max_len() == STR_SIZE,
    {
        self.content().split_in(delim)
    }

    /// The text before its first `delim`, and all of the text after it.
    pub fn splitonce(&self, delim: char) -> (r: (cstr, cstr))
        ensures
            r.0@ == clip(before_delim(text_of(self@), low_byte(delim)), STR_SIZE as nat),
            r.1@ == clip(after_delim(text_of(self@), low_byte(delim)), STR_SIZE as nat),
            r.0.max_len() == STR_SIZE,
            r.1.max_len() == STR_SIZE,
    {
        self.content().splitonce_in(delim)
    }

    /// A string of room `STR_SIZE` holding the bytes of `s`, as many as fit.
    pub fn from_str(s: &str) -> (r: cstr)
        ensures
            r@ == clip(s.spec_bytes(), STR_SIZE as nat),
            r.max_len() == STR_SIZE,
    {
        let b = s.as_bytes();
        let mut this = cstr::new(STR_SIZE);
        let mut i: usize = 0;
        while i < b.len()
            invariant
                i <= b@.len(),
                b@ == s.spec_bytes(),
                this.max_len() == STR_SIZE,
                this@ == clip(b@.take(i as int), STR_SIZE as nat),
            decreases b@.len() - i,
        {
            proof {
                lemma_clip_push(b@.take(i as int), STR_SIZE as nat, b@[i as int]);
                assert(b@.take(i as int + 1) =~= b@.take(i as int).push(b@[i as int]));
            }
            this.add_char(b[i]);
            i += 1;
        }
        proof {
            assert(b@.take(b@.len() as int) =~= b@);
        }
        this
    }

}

impl Clone for cstr {
    fn clone(&self) -> (r: cstr)
        ensures
            r@ == self@,
            r.max_len() == self.max_len(),
    {
        let mut b: Vec<u8> = Vec::new();
        let mut i: usize = 0;
        while i < self.bytes.len()
            invariant
                i <= self.bytes@.len(),
                b@ == self.bytes@.take(i as int),
            decreases self.bytes@.len() - i,
        {
            b.push(self.bytes[i]);
            i += 1;
            proof { assert(b@ =~= self.bytes@.take(i as int)); }
        }
        proof { assert(b@ =~= self.bytes@); }
        cstr { bytes: b, max: self.max }
    }
}

} // verus!
