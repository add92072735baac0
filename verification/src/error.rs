//! The errors of the library.

use vstd::prelude::*;

verus! {

/// What can go wrong in the cryptographic layer.
#[derive(Debug, PartialEq, Eq)]
pub enum CryptoError {
    /// Data of the wrong length, with the length.
    BadLength(usize),
    /// An authenticated ciphertext did not open.
    Aead,
    /// The key encapsulation failed.
    Kem,
    /// The link cipher failed, with its message.
    Noise(String),
    /// A Sphinx header that is not valid.
    Sphinx,
    /// A descriptor that is not valid.
    Descriptor,
    /// A signature that does not verify.
    Ed25519,
}

/// What can go wrong in the network layer.
#[derive(Debug, PartialEq, Eq)]
pub enum NetError {
    /// Data of the wrong length, with the length.
    BadLength(usize),
    /// An unknown command, with its code.
    BadCmd(u8),
    /// A payload that is too short.
    TooShort,
    /// An error of the cryptographic layer.
    Crypto(CryptoError),
    /// No session with the peer.
    NoSession,
    /// No answer in time.
    Timeout,
    /// An input or output error, with its message.
    Io(String),
}

impl From<CryptoError> for NetError {
    fn from(e: CryptoError) -> (r: NetError) {
        NetError::Crypto(e)
    }
}

impl vstd::std_specs::convert::FromSpecImpl<CryptoError> for NetError {
    open spec fn obeys_from_spec() -> bool {
        true
    }

    open spec fn from_spec(e: CryptoError) -> NetError {
        NetError::Crypto(e)
    }
}

/// What can go wrong in the distributed hash table.
#[derive(Debug, PartialEq, Eq)]
pub enum DhtError {
    /// A message of the wrong length, with the length.
    BadLen(usize),
    /// An unknown message type, with its code.
    BadType(u8),
    /// A descriptor that was refused, with the reason.
    BadDesc(String),
    /// An input or output error, with its message.
    Io(String),
}

/// Why a text is no hexadecimal byte string.
#[derive(Debug, PartialEq, Eq)]
pub enum HexError {
    /// A character that is no digit, and its place.
    Character { c: char, index: usize },
    /// An odd number of digits.
    OddLength,
    /// A length other than that of what is decoded into.
    StringLength,
}

/// What an error of the hash table tells.
pub enum DhtFault {
    BadLen(nat),
    BadType(u8),
    BadDesc(Seq<char>),
    Io(Seq<char>),
}

impl View for DhtError {
    type V = DhtFault;

    open spec fn view(&self) -> DhtFault {
        match self {
            DhtError::BadLen(n) => DhtFault::BadLen(*n as nat),
            DhtError::BadType(t) => DhtFault::BadType(*t),
            DhtError::BadDesc(m) => DhtFault::BadDesc(m@),
            DhtError::Io(m) => DhtFault::Io(m@),
        }
    }
}

/// The decimal digits of a number, the most significant first.
pub open spec fn decimal(n: nat) -> Seq<char>
    decreases n,
{
    let digit = (48 + n % 10) as char;
    if n < 10 {
        seq![digit]
    } else {
        decimal(n / 10).push(digit)
    }
}

/// A decimal digit as text.
fn digit_text(d: usize) -> (text: &'static str)
    requires
        d < 10,
    ensures
        text@ == seq![(48 + d) as char],
{
    proof {
        reveal_strlit("0");
        reveal_strlit("1");
        reveal_strlit("2");
        reveal_strlit("3");
        reveal_strlit("4");
        reveal_strlit("5");
        reveal_strlit("6");
        reveal_strlit("7");
        reveal_strlit("8");
        reveal_strlit("9");
    }
    match d {
        0 => "0",
        1 => "1",
        2 => "2",
        3 => "3",
        4 => "4",
        5 => "5",
        6 => "6",
        7 => "7",
        8 => "8",
        _ => "9",
    }
}

/// Appends a number in decimal.
fn push_decimal(text: &mut String, n: usize)
    ensures
        final(text)@ == old(text)@ + decimal(n as nat),
    decreases n,
{
    let ghost before = text@;
    if n >= 10 {
        push_decimal(text, n / 10);
    }
    text.append(digit_text(n % 10));
    assert(text@ =~= before + decimal(n as nat));
}

impl CryptoError {
    /// The message of an error.
    pub open spec fn message_spec(self) -> Seq<char> {
        match self {
            CryptoError::BadLength(n) => "độ dài dữ liệu không đúng: "@ + decimal(n as nat),
            CryptoError::Aead => "AEAD mở thất bại (sai key hoặc dữ liệu hỏng)"@,
            CryptoError::Kem => "ML-KEM thất bại"@,
            CryptoError::Noise(m) => "Noise thất bại: "@ + m@,
            CryptoError::Sphinx => "header Sphinx không hợp lệ"@,
            CryptoError::Descriptor => "descriptor không hợp lệ"@,
            CryptoError::Ed25519 => "chữ ký Ed25519 sai"@,
        }
    }

    /// The message of an error.
    pub fn message(&self) -> (text: String)
        ensures
            text@ == self.message_spec(),
    {
        match self {
            CryptoError::BadLength(n) => {
                let mut text = "độ dài dữ liệu không đúng: ".to_string();
                push_decimal(&mut text, *n);
                text
            },
            CryptoError::Aead => "AEAD mở thất bại (sai key hoặc dữ liệu hỏng)".to_string(),
            CryptoError::Kem => "ML-KEM thất bại".to_string(),
            CryptoError::Noise(m) => {
                let mut text = "Noise thất bại: ".to_string();
                text.append(m.as_str());
                text
            },
            CryptoError::Sphinx => "header Sphinx không hợp lệ".to_string(),
            CryptoError::Descriptor => "descriptor không hợp lệ".to_string(),
            CryptoError::Ed25519 => "chữ ký Ed25519 sai".to_string(),
        }
    }
}

/// The number that decimal digits stand for.
pub open spec fn number(text: Seq<char>) -> nat
    decreases text.len(),
{
    if text.len() == 0 {
        0
    } else {
        (10 * number(text.drop_last()) + (text.last() as int - 48)) as nat
    }
}

/// A number that is written down reads as that number: all of it are digits, and
/// the first is zero only where the number is.
pub proof fn law_decimal_reads_back(n: nat, i: int)
    requires
        0 <= i < decimal(n).len(),
    ensures
        number(decimal(n)) == n,
        48 <= decimal(n)[i] as int <= 57,
        decimal(n)[0] as int == 48 ==> n == 0,
    decreases n,
{
    let text = decimal(n);
    let digit = (48 + n % 10) as char;
    assert(digit as int == 48 + n % 10);
    if n < 10 {
        assert(text.drop_last() =~= Seq::empty());
        assert(number(Seq::<char>::empty()) == 0);
    } else {
        let init = decimal(n / 10);
        assert(init.len() > 0);
        assert(text.drop_last() =~= init);
        law_decimal_reads_back(n / 10, if i < init.len() {
            i
        } else {
            0
        });
    }
}

/// An error with a length tells the length at its end.
pub proof fn law_bad_length_told(n: usize)
    ensures
        exists|k: int|
            0 <= k < CryptoError::BadLength(n).message_spec().len() && number(
                #[trigger] CryptoError::BadLength(n).message_spec().skip(k),
            ) == n,
{
    let head = "độ dài dữ liệu không đúng: "@;
    let m = CryptoError::BadLength(n).message_spec();
    assert(decimal(n as nat).len() > 0);
    law_decimal_reads_back(n as nat, 0);
    assert(m.skip(head.len() as int) =~= decimal(n as nat));
}

} // verus!
