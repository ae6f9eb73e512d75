use vstd::prelude::*;
use vstd::string::StringSliceAdditionalSpecFns;
use vstd::utf8::*;

verus! {

/// How many bytes a player name may take.
pub const NAME_CAPACITY: usize = 12;

/// `b` followed by zero bytes up to the full capacity.
pub open spec fn padded(b: Seq<u8>) -> Seq<u8> {
    b + Seq::new((12 - b.len()) as nat, |i: int| 0u8)
}

/// `b` without its trailing zero bytes.
pub open spec fn trim_zeros(b: Seq<u8>) -> Seq<u8>
    decreases b.len(),
{
    if b.len() > 0 && b.last() == 0 {
        trim_zeros(b.drop_last())
    } else {
        b
    }
}

/// Text that `String::from_utf8_lossy` makes of some bytes.
pub uninterp spec fn lossy_text(b: Seq<u8>) -> Seq<char>;

/// Relies on `String::from_utf8_lossy`: valid UTF-8 comes back as the text it
/// encodes; other bytes give a text that depends on the bytes alone.
#[verifier::external_body]
fn decode_lossy(b: &[u8]) -> (r: String)
    ensures
        r@ == lossy_text(b@),
        valid_utf8(b@) ==> r@ == decode_utf8(b@),
{
    String::from_utf8_lossy(b).into_owned()
}

/// A player's name, at most twelve bytes, held left-aligned and zero-padded
/// in a fixed buffer.
#[derive(Debug, Clone, Copy)]
pub struct PlayerName {
    bytes: [u8; 12],
}

impl View for PlayerName {
    type V = Seq<u8>;

    closed spec fn view(&self) -> Seq<u8> {
        self.bytes@
    }
}

impl PlayerName {
    /// The name whose UTF-8 bytes are those of `value`; fails when they are
    /// more than twelve.
    pub fn try_from(value: &str) -> (r: Result<PlayerName, ()>)
        ensures
            r is Ok <==> value.spec_bytes().len() <= 12,
            r is Ok ==> r->Ok_0@ == padded(value.spec_bytes()),
    {
        if value.len() > NAME_CAPACITY {
            return Err(());
        }
        let b = value.as_bytes();
        let n = b.len();
        let bytes = [
            if 0 < n { b[0] } else { 0 },
            if 1 < n { b[1] } else { 0 },
            if 2 < n { b[2] } else { 0 },
            if 3 < n { b[3] } else { 0 },
            if 4 < n { b[4] } else { 0 },
            if 5 < n { b[5] } else { 0 },
            if 6 < n { b[6] } else { 0 },
            if 7 < n { b[7] } else { 0 },
            if 8 < n { b[8] } else { 0 },
            if 9 < n { b[9] } else { 0 },
            if 10 < n { b[10] } else { 0 },
            if 11 < n { b[11] } else { 0 },
        ];
        let r = PlayerName { bytes };
        assert(r@ =~= padded(value.spec_bytes()));
        Ok(r)
    }

    /// The name for display: the stored bytes without trailing zeros,
    /// decoded with invalid sequences replaced.
    pub fn as_string(&self) -> (r: String)
        ensures
            r@ == lossy_text(trim_zeros(self@)),
            valid_utf8(trim_zeros(self@)) ==> r@ == decode_utf8(trim_zeros(self@)),
    {
        let mut n: usize = NAME_CAPACITY;
        assert(self@.take(12) =~= self@);
        while n > 0 && self.bytes[n - 1] == 0
            invariant
                0 <= n <= 12,
                trim_zeros(self@.take(n as int)) == trim_zeros(self@),
            decreases n,
        {
            assert(self@.take(n as int).drop_last() =~= self@.take(n - 1));
            n = n - 1;
        }
        let mut kept: Vec<u8> = Vec::new();
        let mut k: usize = 0;
        while k < n
            invariant
                0 <= k <= n <= 12,
                kept@ =~= self@.take(k as int),
            decreases n - k,
        {
            kept.push(self.bytes[k]);
            k = k + 1;
        }
        decode_lossy(kept.as_slice())
    }
}

proof fn lemma_trim_padded(b: Seq<u8>)
    requires
        b.len() <= 12,
        b.len() == 0 || b.last() != 0,
    ensures
        trim_zeros(padded(b)) == b,
    decreases 12 - b.len(),
{
    lemma_trim_zero_tail(b, (12 - b.len()) as nat);
    assert(padded(b) =~= b + Seq::new((12 - b.len()) as nat, |i: int| 0u8));
}

proof fn lemma_trim_zero_tail(b: Seq<u8>, k: nat)
    requires
        b.len() == 0 || b.last() != 0,
    ensures
        trim_zeros(b + Seq::new(k, |i: int| 0u8)) == b,
    decreases k,
{
    if k == 0 {
        assert(b + Seq::new(k, |i: int| 0u8) =~= b);
    } else {
        let t = b + Seq::new(k, |i: int| 0u8);
        assert(t.drop_last() =~= b + Seq::new((k - 1) as nat, |i: int| 0u8));
        lemma_trim_zero_tail(b, (k - 1) as nat);
    }
}

proof fn lemma_encoding_ends_nonzero(s: Seq<char>)
    requires
        s.len() > 0,
        s.last() != '\0',
    ensures
        encode_utf8(s).len() > 0,
        encode_utf8(s).last() != 0,
    decreases s.len(),
{
    let c = s[0] as u32;
    char_is_scalar(s[0]);
    lemma_scalar_encoding_nonempty(c);
    if s.len() == 1 {
        assert(s.drop_first() =~= Seq::<char>::empty());
        assert(encode_utf8(s) =~= encode_scalar(c));
        char_u32_cast(s[0], c);
        assert(c != 0) by {
            if c == 0 {
                assert(s[0] == (0u32 as char));
                assert('\0' as u32 == 0);
                char_u32_cast('\0', 0);
            }
        }
        lemma_scalar_encoding_ends_nonzero(c);
    } else {
        assert(s.drop_first().last() == s.last());
        lemma_encoding_ends_nonzero(s.drop_first());
    }
}

proof fn lemma_scalar_encoding_nonempty(c: u32)
    ensures
        encode_scalar(c).len() > 0,
{
}

proof fn lemma_scalar_encoding_ends_nonzero(c: u32)
    requires
        c != 0,
        is_scalar(c),
    ensures
        encode_scalar(c).last() != 0,
{
    if has_width_1_encoding(c) {
        assert(leading_byte_width_1(c) != 0) by (bit_vector)
            requires
                c != 0,
                c <= 0x7f,
        ;
    } else {
        assert(last_continuation_byte(c) != 0) by (bit_vector);
    }
}

/// A name of at most twelve bytes is accepted, and displays as itself when
/// it does not end in a NUL character (the padding would swallow one).
pub proof fn lemma_name_round_trip(name: Seq<char>)
    requires
        encode_utf8(name).len() <= 12,
        name.len() == 0 || name.last() != '\0',
    ensures
        valid_utf8(trim_zeros(padded(encode_utf8(name)))),
        decode_utf8(trim_zeros(padded(encode_utf8(name)))) == name,
{
    if name.len() > 0 {
        lemma_encoding_ends_nonzero(name);
    } else {
        assert(encode_utf8(name) =~= Seq::<u8>::empty());
    }
    lemma_trim_padded(encode_utf8(name));
    encode_utf8_valid_utf8(name);
    encode_utf8_decode_utf8(name);
}

} // verus!
