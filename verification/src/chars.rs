//! Character sequences: indexing a text by character, and searching it.
use vstd::prelude::*;
use vstd::string::*;
use vstd::utf8::{
    encode_scalar, encode_utf8, encode_utf8_decode_utf8, encode_utf8_first_scalar,
    encode_utf8_valid_utf8, is_char_boundary, pop_first_scalar,
};

verus! {

/// The characters of `s`, in order.
pub fn chars_of(s: &str) -> (v: Vec<char>)
    ensures
        v@ == s@,
{
    let mut v: Vec<char> = Vec::new();
    for c in it: s.chars()
        invariant
            it.seq() == s@,
            v@ == it.seq().take(it.index() as int),
    {
        v.push(c);
    }
    v
}

/// The number of bytes that the UTF-8 encoding of `s` takes.
pub open spec fn byte_len(s: Seq<char>) -> nat {
    encode_utf8(s).len()
}

/// Encoding distributes over concatenation.
pub proof fn lemma_encode_concat(a: Seq<char>, b: Seq<char>)
    ensures
        encode_utf8(a + b) == encode_utf8(a) + encode_utf8(b),
    decreases a.len(),
{
    if a.len() == 0 {
        assert(a + b =~= b);
        assert(encode_utf8(a) + encode_utf8(b) =~= encode_utf8(b));
    } else {
        lemma_encode_concat(a.drop_first(), b);
        assert((a + b).drop_first() =~= a.drop_first() + b);
        assert(encode_utf8(a + b) =~= encode_utf8(a) + encode_utf8(b));
    }
}

/// A prefix of a text takes no more bytes than the text, and one character
/// more takes the bytes of that character more.
pub proof fn lemma_byte_len_prefix(s: Seq<char>, i: int)
    requires
        0 <= i <= s.len(),
    ensures
        byte_len(s.take(i)) <= byte_len(s),
        i < s.len() ==> byte_len(s.take(i + 1)) == byte_len(s.take(i)) + encode_scalar(
            s[i] as u32,
        ).len(),
{
    lemma_encode_concat(s.take(i), s.skip(i));
    assert(s.take(i) + s.skip(i) =~= s);
    if i < s.len() {
        lemma_encode_concat(s.take(i), seq![s[i]]);
        assert(s.take(i) + seq![s[i]] =~= s.take(i + 1));
        assert(seq![s[i]].drop_first() =~= Seq::<char>::empty());
        assert(encode_utf8(seq![s[i]]) =~= encode_scalar(s[i] as u32)) by {
            reveal_with_fuel(encode_utf8, 2);
        }
    }
}

/// The byte offset of a position of a text is a character boundary of its
/// encoding.
pub proof fn lemma_offset_is_boundary(s: Seq<char>, i: int)
    requires
        0 <= i <= s.len(),
    ensures
        is_char_boundary(encode_utf8(s), byte_len(s.take(i)) as int),
    decreases i,
{
    let bytes = encode_utf8(s);
    encode_utf8_valid_utf8(s);
    if i == 0 {
        assert(s.take(0) =~= Seq::<char>::empty());
    } else {
        let rest = s.drop_first();
        lemma_byte_len_prefix(s, i);
        encode_utf8_first_scalar(s);
        assert(pop_first_scalar(bytes) =~= encode_utf8(rest));
        lemma_encode_concat(seq![s[0]], rest.take(i - 1));
        assert(seq![s[0]] + rest.take(i - 1) =~= s.take(i));
        assert(seq![s[0]].drop_first() =~= Seq::<char>::empty());
        assert(encode_utf8(seq![s[0]]) =~= encode_scalar(s[0] as u32)) by {
            reveal_with_fuel(encode_utf8, 2);
        }
        lemma_offset_is_boundary(rest, i - 1);
    }
}

/// The encoding of a part of a text is the part of the encoding between the
/// byte offsets of its ends.
pub proof fn lemma_encode_part(s: Seq<char>, from: int, to: int)
    requires
        0 <= from <= to <= s.len(),
    ensures
        encode_utf8(s.take(to)) == encode_utf8(s).subrange(0, byte_len(s.take(to)) as int),
        encode_utf8(s.subrange(from, to)) == encode_utf8(s.take(to)).subrange(
            byte_len(s.take(from)) as int,
            byte_len(s.take(to)) as int,
        ),
{
    lemma_encode_concat(s.take(to), s.skip(to));
    assert(s.take(to) + s.skip(to) =~= s);
    assert(encode_utf8(s.take(to)) =~= encode_utf8(s).subrange(0, byte_len(s.take(to)) as int));
    lemma_encode_concat(s.take(from), s.subrange(from, to));
    assert(s.take(from) + s.subrange(from, to) =~= s.take(to));
    assert(encode_utf8(s.subrange(from, to)) =~= encode_utf8(s.take(to)).subrange(
        byte_len(s.take(from)) as int,
        byte_len(s.take(to)) as int,
    ));
}

/// Two texts with one encoding are one text.
pub proof fn lemma_encode_injective(a: Seq<char>, b: Seq<char>)
    requires
        encode_utf8(a) == encode_utf8(b),
    ensures
        a == b,
{
    encode_utf8_decode_utf8(a);
    encode_utf8_decode_utf8(b);
}

/// The number of bytes that `c` takes in UTF-8.
pub fn utf8_width(c: char) -> (w: usize)
    ensures
        w == encode_scalar(c as u32).len(),
        1 <= w <= 4,
{
    let v = c as u32;
    if v < 0x80 {
        1
    } else if v < 0x800 {
        2
    } else if v < 0x10000 {
        3
    } else {
        4
    }
}

/// A text held for scanning: its characters, and for each position the byte
/// offset at which it lies in the text.
pub struct Source<'a> {
    text: &'a str,
    chars: Vec<char>,
    offsets: Vec<usize>,
}

impl<'a> View for Source<'a> {
    type V = Seq<char>;

    closed spec fn view(&self) -> Seq<char> {
        self.text@
    }
}

impl<'a> Source<'a> {
    /// `chars` holds the characters of `text`, and `offsets` the byte offset
    /// of every position from the start to the end.
    #[verifier::type_invariant]
    spec fn wf(&self) -> bool {
        &&& self.chars@ == self.text@
        &&& self.offsets@.len() == self.chars@.len() + 1
        &&& forall|i: int|
            0 <= i <= self.chars@.len() ==> #[trigger] self.offsets@[i] == byte_len(
                self.text@.take(i),
            )
    }

    /// Holds `text` for scanning.
    pub fn new(text: &'a str) -> (src: Self)
        ensures
            src@ == text@,
    {
        let chars = chars_of(text);
        let total = text.as_bytes().len();
        let mut offsets: Vec<usize> = Vec::with_capacity(total);
        offsets.push(0);
        let mut i: usize = 0;
        proof {
            assert(text@.take(0) =~= Seq::<char>::empty());
        }
        while i < chars.len()
            invariant
                i <= chars.len(),
                chars@ == text@,
                total == byte_len(text@),
                offsets@.len() == i + 1,
                forall|j: int| 0 <= j <= i ==> #[trigger] offsets@[j] == byte_len(text@.take(j)),
            decreases chars.len() - i,
        {
            proof {
                lemma_byte_len_prefix(text@, i as int);
                lemma_byte_len_prefix(text@, i + 1);
            }
            let next = offsets[i] + utf8_width(chars[i]);
            offsets.push(next);
            i += 1;
        }
        Source { text, chars, offsets }
    }

    /// The characters of the text.
    pub fn chars(&self) -> (r: &Vec<char>)
        ensures
            r@ == self@,
    {
        proof {
            use_type_invariant(self);
        }
        &self.chars
    }

    /// The number of characters.
    pub fn len(&self) -> (n: usize)
        ensures
            n == self@.len(),
    {
        proof {
            use_type_invariant(self);
        }
        self.chars.len()
    }

    /// The character at position `i`.
    pub fn at(&self, i: usize) -> (c: char)
        requires
            i < self@.len(),
        ensures
            c == self@[i as int],
    {
        proof {
            use_type_invariant(self);
        }
        self.chars[i]
    }

    /// The byte offset of position `i`.
    pub fn offset(&self, i: usize) -> (o: usize)
        requires
            i <= self@.len(),
        ensures
            o == byte_len(self@.take(i as int)),
    {
        proof {
            use_type_invariant(self);
        }
        self.offsets[i]
    }

    /// The text from position `from` up to position `to`.
    pub fn slice(&self, from: usize, to: usize) -> (r: &'a str)
        requires
            from <= to <= self@.len(),
        ensures
            r@ == self@.subrange(from as int, to as int),
    {
        let ghost s = self.text@;
        proof {
            use_type_invariant(self);
            lemma_offset_is_boundary(s, to as int);
            lemma_encode_part(s, from as int, to as int);
            lemma_offset_is_boundary(s.take(to as int), from as int);
            assert(s.take(to as int).take(from as int) =~= s.take(from as int));
        }
        let (head, _) = self.text.split_at(self.offsets[to]);
        proof {
            lemma_encode_injective(head@, s.take(to as int));
        }
        let (_, part) = head.split_at(self.offsets[from]);
        proof {
            lemma_encode_injective(part@, s.subrange(from as int, to as int));
        }
        part
    }
}

/// True if `n` characters `ch` stand at position `at` of `s`; `n` is at most 3.
pub open spec fn run_of(s: Seq<char>, at: int, ch: char, n: nat) -> bool {
    &&& 0 <= at
    &&& at + n <= s.len()
    &&& n >= 1 ==> s[at] == ch
    &&& n >= 2 ==> s[at + 1] == ch
    &&& n >= 3 ==> s[at + 2] == ch
}

/// How far after `from` the first run of `n` characters `ch` starts, if there
/// is one.
pub open spec fn find_run(s: Seq<char>, from: int, ch: char, n: nat) -> Option<nat>
    decreases s.len() - from,
{
    if from < 0 || from >= s.len() {
        None
    } else if run_of(s, from, ch, n) {
        Some(0)
    } else {
        match find_run(s, from + 1, ch, n) {
            Some(k) => Some(k + 1),
            None => None,
        }
    }
}

/// `find_run` gives the first position at or after `from` where a run starts.
pub proof fn lemma_find_run(s: Seq<char>, from: int, ch: char, n: nat)
    requires
        0 <= from,
    ensures
        match find_run(s, from, ch, n) {
            Some(k) => {
                &&& run_of(s, from + k, ch, n)
                &&& forall|j: int| from <= j < from + k ==> !run_of(s, j, ch, n)
            },
            None => forall|j: int| from <= j < s.len() ==> !run_of(s, j, ch, n),
        },
    decreases s.len() - from,
{
    if from < s.len() && !run_of(s, from, ch, n) {
        lemma_find_run(s, from + 1, ch, n);
    }
}

/// A run at `at` with none before it from `from` on is what `find_run` finds.
pub proof fn lemma_find_run_at(s: Seq<char>, from: int, ch: char, n: nat, at: int)
    requires
        0 <= from <= at < s.len(),
        run_of(s, at, ch, n),
        forall|j: int| from <= j < at ==> !run_of(s, j, ch, n),
    ensures
        find_run(s, from, ch, n) == Some((at - from) as nat),
    decreases at - from,
{
    if from < at {
        lemma_find_run_at(s, from + 1, ch, n, at);
    }
}

/// No run from `from` on: `find_run` finds none.
pub proof fn lemma_find_run_none(s: Seq<char>, from: int, ch: char, n: nat)
    requires
        0 <= from,
        forall|j: int| from <= j < s.len() ==> !run_of(s, j, ch, n),
    ensures
        find_run(s, from, ch, n) is None,
    decreases s.len() - from,
{
    if from < s.len() {
        lemma_find_run_none(s, from + 1, ch, n);
    }
}

/// Tests for a run of `n` characters `ch` at position `at`.
pub fn is_run(s: &Vec<char>, at: usize, ch: char, n: usize) -> (b: bool)
    requires
        1 <= n <= 3,
    ensures
        b == run_of(s@, at as int, ch, n as nat),
{
    if at >= s.len() || n > s.len() - at {
        return false;
    }
    if s[at] != ch {
        return false;
    }
    if n >= 2 && s[at + 1] != ch {
        return false;
    }
    if n >= 3 && s[at + 2] != ch {
        return false;
    }
    true
}

/// The first position at or after `from` where a run of `n` characters `ch`
/// starts.
pub fn find_run_from(s: &Vec<char>, from: usize, ch: char, n: usize) -> (r: Option<usize>)
    requires
        1 <= n <= 3,
    ensures
        match r {
            Some(at) => find_run(s@, from as int, ch, n as nat) == Some((at - from) as nat)
                && from <= at && at + n <= s@.len(),
            None => find_run(s@, from as int, ch, n as nat) is None,
        },
{
    let mut i: usize = from;
    while i < s.len()
        invariant
            from <= i,
            1 <= n <= 3,
            forall|j: int| from <= j < i ==> !run_of(s@, j, ch, n as nat),
        decreases s.len() - i,
    {
        if is_run(s, i, ch, n) {
            proof {
                lemma_find_run_at(s@, from as int, ch, n as nat, i as int);
            }
            return Some(i);
        }
        i += 1;
    }
    proof {
        lemma_find_run_none(s@, from as int, ch, n as nat);
    }
    None
}

} // verus!
