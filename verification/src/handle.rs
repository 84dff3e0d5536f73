use vstd::prelude::*;

verus! {

/// The per-slot reuse counter. Each removal prepares the slot for its next
/// occupant under a generation one higher than the removed one, which is what
/// tells a stale handle apart from the current one.
pub type Generation = u32;

/// A handle into an [`Arena`](crate::Arena): an immutable (slot index,
/// generation) pair. Two handles are equal iff both fields are equal. A
/// handle is a pure lookup key: copying it has no effect on any arena, and
/// presenting it to an arena can never reach a value other than the one it
/// was issued for.
#[derive(Copy, Clone, Debug, PartialEq, Eq, Hash, Structural)]
pub struct ID {
    pub(crate) index: usize,
    pub(crate) generation: Generation,
}

impl ID {
    /// The slot index this handle addresses, at the specification level.
    pub open(crate) spec fn idx(self) -> usize {
        self.index
    }

    /// The generation this handle was issued under, at the specification
    /// level.
    pub open(crate) spec fn gen(self) -> Generation {
        self.generation
    }

    pub(crate) fn new(index: usize, generation: Generation) -> (r: ID)
        ensures
            r.idx() == index,
            r.gen() == generation,
    {
        ID { index, generation }
    }

    /// The slot index this handle addresses.
    pub fn index(&self) -> (r: usize)
        ensures
            r == self.idx(),
    {
        self.index
    }

    /// The generation this handle was issued under.
    pub fn generation(&self) -> (r: Generation)
        ensures
            r == self.gen(),
    {
        self.generation
    }

    /// The handle's textual form, for logs and debugging: the bare slot
    /// index when the generation is zero, `(index-generation)` otherwise.
    /// Not a parseable format with round-trip guarantees.
    pub fn display_string(&self) -> (r: String)
        ensures
            r@ == id_display(*self),
    {
        let mut s = String::new();
        if self.generation == 0 {
            push_decimal(&mut s, self.index as u64);
        } else {
            s.push('(');
            push_decimal(&mut s, self.index as u64);
            s.push('-');
            push_decimal(&mut s, self.generation as u64);
            s.push(')');
        }
        s
    }
}

/// The handle with the given slot index and generation, at the specification
/// level.
pub open(crate) spec fn id_at(index: usize, generation: Generation) -> ID {
    ID { index, generation }
}

/// The decimal digits of `n`, most significant first.
pub open spec fn dec_digits(n: nat) -> Seq<char>
    decreases n,
{
    if n < 10 {
        seq![digit_char(n)]
    } else {
        dec_digits(n / 10).push(digit_char(n % 10))
    }
}

/// The character for one decimal digit.
pub open spec fn digit_char(d: nat) -> char
    recommends
        d < 10,
{
    ((48 + d % 10) as u8) as char
}

/// The textual form of a handle: the bare slot index when the generation is
/// zero, `(index-generation)` otherwise.
pub open spec fn id_display(id: ID) -> Seq<char> {
    if id.gen() == 0 {
        dec_digits(id.idx() as nat)
    } else {
        seq!['('] + dec_digits(id.idx() as nat) + seq!['-'] + dec_digits(id.gen() as nat)
            + seq![')']
    }
}

/// Relies on `String::push`: appending one character appends exactly that
/// character to the string's contents.
pub assume_specification[ String::push ](s: &mut String, ch: char)
    ensures
        final(s)@ == old(s)@.push(ch),
;

/// `s` with its characters in the opposite order.
pub(crate) open spec fn rev_of(s: Seq<char>) -> Seq<char> {
    Seq::new(s.len(), |k: int| s[s.len() - 1 - k])
}

/// Append the decimal form of `n` to `s`.
fn push_decimal(s: &mut String, n: u64)
    ensures
        final(s)@ == old(s)@ + dec_digits(n as nat),
{
    let ghost start = s@;
    let mut buf: Vec<u8> = Vec::new();
    let mut m = n;
    loop
        invariant_except_break
            buf@.len() == 0 ==> m == n,
            buf@.len() > 0 ==> m > 0 && dec_digits(n as nat) == dec_digits(m as nat) + rev_of(
                digit_chars(buf@),
            ),
        invariant
            forall|k: int| 0 <= k < buf@.len() ==> (#[trigger] buf@[k]) < 10,
        ensures
            dec_digits(n as nat) == rev_of(digit_chars(buf@)),
        decreases m,
    {
        let d = m % 10;
        let ghost before = buf@;
        let ghost m0 = m as nat;
        buf.push(d as u8);
        m = m / 10;
        proof {
            if before.len() == 0 {
                assert(dec_digits(n as nat) + rev_of(digit_chars(before)) =~= dec_digits(
                    n as nat,
                ));
            }
            assert(dec_digits(n as nat) == dec_digits(m0) + rev_of(digit_chars(before)));
            assert(digit_chars(buf@) =~= digit_chars(before).push(digit_char(d as nat)));
            assert(rev_of(digit_chars(before).push(digit_char(d as nat))) =~= seq![
                digit_char(d as nat),
            ] + rev_of(digit_chars(before)));
            if m0 >= 10 {
                assert(dec_digits(m0) == dec_digits(m0 / 10).push(digit_char(m0 % 10)));
                assert(dec_digits(m as nat).push(digit_char(d as nat)) + rev_of(
                    digit_chars(before),
                ) =~= dec_digits(m as nat) + (seq![digit_char(d as nat)] + rev_of(
                    digit_chars(before),
                )));
            } else {
                assert(dec_digits(m0) == seq![digit_char(m0)]);
                assert(seq![digit_char(d as nat)] + rev_of(digit_chars(before)) =~= rev_of(
                    digit_chars(buf@),
                ));
                assert(dec_digits(m0) + rev_of(digit_chars(before)) =~= rev_of(
                    digit_chars(buf@),
                ));
            }
        }
        if m == 0 {
            break;
        }
    }
    let mut i = buf.len();
    proof {
        assert(start + rev_of(digit_chars(buf@)).take(buf@.len() - i) =~= start);
    }
    while i > 0
        invariant
            i <= buf@.len(),
            forall|k: int| 0 <= k < buf@.len() ==> (#[trigger] buf@[k]) < 10,
            dec_digits(n as nat) == rev_of(digit_chars(buf@)),
            s@ == start + rev_of(digit_chars(buf@)).take(buf@.len() - i),
        decreases i,
    {
        let ghost taken = buf@.len() - i;
        i = i - 1;
        let c = 48 + buf[i];
        s.push(c as char);
        proof {
            let r = rev_of(digit_chars(buf@));
            assert(r[taken] == digit_char(buf@[i as int] as nat));
            assert(r.take(taken + 1) =~= r.take(taken).push(r[taken]));
        }
    }
    proof {
        assert(rev_of(digit_chars(buf@)).take(buf@.len() as int) =~= rev_of(digit_chars(buf@)));
    }
}

/// The digit characters for a sequence of digit values.
pub(crate) open spec fn digit_chars(s: Seq<u8>) -> Seq<char> {
    s.map_values(|d: u8| digit_char(d as nat))
}

/// `id_at` yields exactly the handle whose parts were given.
pub broadcast proof fn lemma_id_at(index: usize, generation: Generation)
    ensures
        (#[trigger] id_at(index, generation)).idx() == index,
        id_at(index, generation).gen() == generation,
{
}

/// A handle is nothing but its two parts: two handles are equal iff their
/// slot indices and generations agree.
pub proof fn lemma_id_parts(a: ID, b: ID)
    ensures
        (a == b) <==> (a.idx() == b.idx() && a.gen() == b.gen()),
{
}

} // verus!
