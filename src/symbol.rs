use vstd::prelude::*;
use vstd::string::StringSliceAdditionalSpecFns;

verus! {

/// Number of symbols in the alphabet `a`..=`z`.
pub const ALPHABET: usize = 26;

/// True when `b` is one of the bytes `a`..=`z`.
pub open spec fn is_symbol_byte(b: u8) -> bool {
    'a' as u8 <= b <= 'z' as u8
}

/// One validated alphabet symbol: a byte in `a`..=`z`.
#[derive(Debug, Clone, Copy, PartialEq, Eq, Structural)]
pub struct Char(u8);

impl Char {
    #[verifier::type_invariant]
    spec fn inv(self) -> bool {
        is_symbol_byte(self.0)
    }

    /// The byte this symbol was made from.
    pub closed spec fn byte(self) -> u8 {
        self.0
    }

    /// Two symbols are equal exactly when their bytes are.
    pub proof fn lemma_byte_injective(a: Char, b: Char)
        ensures
            a.byte() == b.byte() <==> a == b,
    {
    }

    /// The position of this symbol in the alphabet.
    pub open spec fn spec_index(self) -> int {
        self.byte() - 'a' as u8
    }

    /// The position of this symbol in the alphabet, below `ALPHABET`.
    pub fn index(self) -> (r: usize)
        ensures
            r == self.spec_index(),
            r < ALPHABET,
    {
        proof {
            use_type_invariant(&self);
        }
        (self.0 - 'a' as u8) as usize
    }
}

/// Message carried by a rejected byte.
pub const INVALID_SYMBOL: &'static str = "invalid character, expect [a-z]";

impl vstd::std_specs::convert::TryFromSpecImpl<u8> for Char {
    open spec fn obeys_try_from_spec() -> bool {
        true
    }

    closed spec fn try_from_spec(c: u8) -> Result<Char, &'static str> {
        if is_symbol_byte(c) {
            Ok(Char(c))
        } else {
            Err(INVALID_SYMBOL)
        }
    }
}

impl TryFrom<u8> for Char {
    type Error = &'static str;

    fn try_from(c: u8) -> (r: Result<Char, &'static str>)
        ensures
            r is Ok <==> is_symbol_byte(c),
            r is Ok ==> r->Ok_0.byte() == c,
            r is Err ==> r->Err_0 == INVALID_SYMBOL,
    {
        if 'a' as u8 <= c && c <= 'z' as u8 {
            Ok(Char(c))
        } else {
            Err(INVALID_SYMBOL)
        }
    }
}

/// True when every byte of `b` is one of `a`..=`z`.
pub open spec fn all_symbol_bytes(b: Seq<u8>) -> bool {
    forall|i: int| 0 <= i < b.len() ==> is_symbol_byte(#[trigger] b[i])
}

/// True when `cs` holds, position by position, the symbols made from `b`.
pub open spec fn symbols_of(cs: Seq<Char>, b: Seq<u8>) -> bool {
    &&& cs.len() == b.len()
    &&& forall|i: int| 0 <= i < b.len() ==> (#[trigger] cs[i]).byte() == b[i]
}

/// A sequence of validated symbols, made from text whose every byte is in `a`..=`z`.
#[derive(Debug, Clone, PartialEq)]
pub struct Chars(Vec<Char>);

impl View for Chars {
    type V = Seq<Char>;

    closed spec fn view(&self) -> Seq<Char> {
        self.0@
    }
}

// What `try_from` returns is stated on the method itself.
impl vstd::std_specs::convert::TryFromSpecImpl<&str> for Chars {
    open spec fn obeys_try_from_spec() -> bool {
        false
    }

    closed spec fn try_from_spec(s: &str) -> Result<Chars, &'static str> {
        Err(INVALID_SYMBOL)
    }
}

impl TryFrom<&str> for Chars {
    type Error = &'static str;

    /// Accepts `s` only when each of its bytes is a symbol; one bad byte rejects the whole text.
    fn try_from(s: &str) -> (r: Result<Chars, &'static str>)
        ensures
            r is Ok <==> all_symbol_bytes(s.spec_bytes()),
            r is Ok ==> symbols_of(r->Ok_0@, s.spec_bytes()),
            r is Err ==> r->Err_0 == INVALID_SYMBOL,
    {
        let bytes = s.as_bytes();
        let mut v: Vec<Char> = Vec::new();
        let mut i: usize = 0;
        while i < bytes.len()
            invariant
                bytes@ == s.spec_bytes(),
                i <= bytes@.len(),
                all_symbol_bytes(bytes@.subrange(0, i as int)),
                symbols_of(v@, bytes@.subrange(0, i as int)),
            decreases bytes@.len() - i,
        {
            match Char::try_from(bytes[i]) {
                Ok(c) => v.push(c),
                Err(e) => return Err(e),
            }
            i = i + 1;
        }
        assert(bytes@.subrange(0, i as int) =~= bytes@);
        Ok(Chars(v))
    }
}

impl AsRef<[Char]> for Chars {
    fn as_ref(&self) -> (r: &[Char])
        ensures
            r@ == self@,
    {
        self.0.as_slice()
    }
}

} // verus!
