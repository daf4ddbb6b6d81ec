//! Errors of this crate.

use vstd::prelude::*;

verus! {

/// Error variants of this crate.
#[derive(Debug)]
pub enum Error {
    /// An entry of length zero is present, either in the vocabulary or among the special tokens.
    EmptyToken,
    /// The same byte string appears twice, either in the vocabulary or among the special tokens.
    /// The positions are relative to the list it was found in.
    DuplicateToken { token: Vec<u8>, first: u32, second: u32 },
    /// The vocabulary is too large to index with a `u32`.
    VocabTooLarge { what: &'static str, len: usize },
    /// Some byte value has no corresponding single-byte token.
    MissingByteToken(u8),
    /// A component of some canonical rule does not come before the merged token, which would
    /// require standard merging to return to a priority it has already passed.
    NotProper {
        token: Vec<u8>,
        rank: u32,
        pre: Vec<u8>,
        pre_rank: u32,
        suc: Vec<u8>,
        suc_rank: u32,
    },
    /// A token longer than `u16::MAX` is present, which the search entries cannot hold.
    TokenTooLong { token: Vec<u8>, len: usize },
    /// A special token id is already taken, either by the vocabulary's rank space, i.e. the length
    /// of the token list, or by another special token.
    SpecialIdConflict { token: Vec<u8>, id: u32 },
    /// A special token occurs inside a canonical token or another special token, equality included,
    /// so it would not be the unique longest pattern ending at its own end position.
    SpecialTokenNotIsolated { special: Vec<u8>, container: Vec<u8> },
    /// Building the Aho-Corasick automaton failed.
    Automaton(String),
}

/// What an [`Error`] says, with byte strings and texts in place of their containers.
pub enum ErrorView {
    EmptyToken,
    DuplicateToken { token: Seq<u8>, first: int, second: int },
    VocabTooLarge { what: Seq<char>, len: int },
    MissingByteToken(u8),
    NotProper {
        token: Seq<u8>,
        rank: int,
        pre: Seq<u8>,
        pre_rank: int,
        suc: Seq<u8>,
        suc_rank: int,
    },
    TokenTooLong { token: Seq<u8>, len: int },
    SpecialIdConflict { token: Seq<u8>, id: int },
    SpecialTokenNotIsolated { special: Seq<u8>, container: Seq<u8> },
    Automaton(Seq<char>),
}

impl View for Error {
    type V = ErrorView;

    open spec fn view(&self) -> ErrorView {
        match *self {
            Error::EmptyToken => ErrorView::EmptyToken,
            Error::DuplicateToken { token, first, second } => ErrorView::DuplicateToken {
                token: token@,
                first: first as int,
                second: second as int,
            },
            Error::VocabTooLarge { what, len } => ErrorView::VocabTooLarge {
                what: what@,
                len: len as int,
            },
            Error::MissingByteToken(b) => ErrorView::MissingByteToken(b),
            Error::NotProper { token, rank, pre, pre_rank, suc, suc_rank } => ErrorView::NotProper {
                token: token@,
                rank: rank as int,
                pre: pre@,
                pre_rank: pre_rank as int,
                suc: suc@,
                suc_rank: suc_rank as int,
            },
            Error::TokenTooLong { token, len } => ErrorView::TokenTooLong {
                token: token@,
                len: len as int,
            },
            Error::SpecialIdConflict { token, id } => ErrorView::SpecialIdConflict {
                token: token@,
                id: id as int,
            },
            Error::SpecialTokenNotIsolated { special, container } =>
                ErrorView::SpecialTokenNotIsolated { special: special@, container: container@ },
            Error::Automaton(m) => ErrorView::Automaton(m@),
        }
    }
}

/// What an error says is what it holds, field by field.
pub proof fn law_errors_say_what_they_hold(
    token: Vec<u8>,
    other: Vec<u8>,
    third: Vec<u8>,
    a: u32,
    b: u32,
    c: u32,
    what: &'static str,
    len: usize,
    byte: u8,
    reason: String,
)
    ensures
        Error::EmptyToken@ == ErrorView::EmptyToken,
        (Error::DuplicateToken { token, first: a, second: b })@ == (ErrorView::DuplicateToken {
            token: token@,
            first: a as int,
            second: b as int,
        }),
        (Error::VocabTooLarge { what, len })@ == (ErrorView::VocabTooLarge {
            what: what@,
            len: len as int,
        }),
        Error::MissingByteToken(byte)@ == ErrorView::MissingByteToken(byte),
        (Error::NotProper { token, rank: a, pre: other, pre_rank: b, suc: third, suc_rank: c })@
            == (ErrorView::NotProper {
            token: token@,
            rank: a as int,
            pre: other@,
            pre_rank: b as int,
            suc: third@,
            suc_rank: c as int,
        }),
        (Error::TokenTooLong { token, len })@ == (ErrorView::TokenTooLong {
            token: token@,
            len: len as int,
        }),
        (Error::SpecialIdConflict { token, id: a })@ == (ErrorView::SpecialIdConflict {
            token: token@,
            id: a as int,
        }),
        (Error::SpecialTokenNotIsolated { special: token, container: other })@
            == (ErrorView::SpecialTokenNotIsolated { special: token@, container: other@ }),
        Error::Automaton(reason)@ == ErrorView::Automaton(reason@),
{
}

/// Specialized result type of this crate.
pub type Result<T, E = Error> = core::result::Result<T, E>;

/// `String::push` appends the given character to the end of the string.
pub assume_specification[ String::push ](s: &mut String, c: char)
    ensures
        final(s)@ == old(s)@.push(c),
;

/// The decimal digits of a number.
pub open spec fn decimal(n: int) -> Seq<char>
    decreases n,
{
    if n < 10 {
        seq![digit(n)]
    } else {
        decimal(n / 10).push(digit(n % 10))
    }
}

/// The hexadecimal digit for a number below 16.
pub open spec fn digit(n: int) -> char {
    if n < 10 {
        ('0' as int + n) as char
    } else {
        ('a' as int + (n - 10)) as char
    }
}

/// Whether a byte is a space or a visible ASCII character.
pub open spec fn printable(b: u8) -> bool {
    0x20 <= b <= 0x7e
}

/// A printable byte inside quotation marks.
pub open spec fn escaped(b: u8) -> Seq<char> {
    if b == 0x22 || b == 0x5c {
        seq!['\\', b as char]
    } else {
        seq![b as char]
    }
}

/// The first `n` bytes, inside quotation marks.
pub open spec fn quoted(bytes: Seq<u8>, n: int) -> Seq<char>
    decreases n,
{
    if n <= 0 {
        Seq::empty()
    } else {
        quoted(bytes, n - 1) + escaped(bytes[n - 1])
    }
}

/// The first `n` bytes, two hexadecimal digits each.
pub open spec fn hex(bytes: Seq<u8>, n: int) -> Seq<char>
    decreases n,
{
    if n <= 0 {
        Seq::empty()
    } else {
        hex(bytes, n - 1).push(digit(bytes[n - 1] as int / 16)).push(digit(bytes[n - 1] as int % 16))
    }
}

/// A byte string as it appears in a message: in quotation marks if it is printable, and as
/// hexadecimal digits otherwise.
pub open spec fn bytes_text(bytes: Seq<u8>) -> Seq<char> {
    if forall|i: int| 0 <= i < bytes.len() ==> #[trigger] printable(bytes[i]) {
        seq!['"'] + quoted(bytes, bytes.len() as int) + seq!['"']
    } else {
        seq!['0', 'x'] + hex(bytes, bytes.len() as int)
    }
}

/// The number that decimal digits stand for.
pub open spec fn decimal_value(digits: Seq<char>) -> int
    decreases digits.len(),
{
    if digits.len() == 0 {
        0
    } else {
        10 * decimal_value(digits.drop_last()) + (digits.last() as int - '0' as int)
    }
}

/// A number is written with the digits that stand for it, and without a leading zero.
pub proof fn law_decimal_reads_back(n: int)
    requires
        n >= 0,
    ensures
        decimal_value(decimal(n)) == n,
        decimal(n).len() > 0,
        forall|i: int| 0 <= i < decimal(n).len() ==> '0' <= #[trigger] decimal(n)[i] <= '9',
        n > 0 ==> decimal(n)[0] != '0',
    decreases n,
{
    if n < 10 {
        assert(decimal(n).drop_last() =~= Seq::<char>::empty());
        assert(decimal_value(Seq::<char>::empty()) == 0);
    } else {
        law_decimal_reads_back(n / 10);
        assert(decimal(n).drop_last() =~= decimal(n / 10));
        let before = decimal(n / 10);
        assert forall|i: int| 0 <= i < decimal(n).len() implies '0' <= #[trigger] decimal(n)[i]
            <= '9' by {
            if i < before.len() {
                assert(decimal(n)[i] == before[i]);
            }
        }
        assert(decimal(n)[0] == before[0]);
    }
}

/// The number that a hexadecimal digit stands for.
pub open spec fn digit_value(c: char) -> int {
    if '0' <= c <= '9' {
        c as int - '0' as int
    } else {
        c as int - 'a' as int + 10
    }
}

/// Bytes are written with two digits each, which stand for them.
pub proof fn law_hex_reads_back(bytes: Seq<u8>, n: int, i: int)
    requires
        0 <= i < n <= bytes.len(),
    ensures
        hex(bytes, n).len() == 2 * n,
        16 * digit_value(hex(bytes, n)[2 * i]) + digit_value(hex(bytes, n)[2 * i + 1]) == bytes[i],
    decreases n,
{
    let before = hex(bytes, n - 1);
    let b = bytes[n - 1] as int;
    assert(hex(bytes, n) == before.push(digit(b / 16)).push(digit(b % 16)));
    if n == 1 {
        assert(before =~= Seq::<char>::empty());
    } else if i < n - 1 {
        law_hex_reads_back(bytes, n - 1, i);
        assert(hex(bytes, n)[2 * i] == before[2 * i]);
        assert(hex(bytes, n)[2 * i + 1] == before[2 * i + 1]);
    } else {
        law_hex_reads_back(bytes, n - 1, 0);
    }
}

fn push_digit(out: &mut String, n: u8)
    requires
        n < 16,
    ensures
        final(out)@ == old(out)@.push(digit(n as int)),
{
    let c: u8 = if n < 10 {
        0x30 + n
    } else {
        0x61 + (n - 10)
    };
    out.push(c as char);
}

fn push_decimal(out: &mut String, n: u64)
    ensures
        final(out)@ == old(out)@ + decimal(n as int),
    decreases n,
{
    if n >= 10 {
        push_decimal(out, n / 10);
    }
    push_digit(out, (n % 10) as u8);
    assert(out@ =~= old(out)@ + decimal(n as int));
}

fn push_bytes(out: &mut String, bytes: &[u8])
    ensures
        final(out)@ == old(out)@ + bytes_text(bytes@),
{
    let ghost start = out@;
    let mut plain: bool = true;
    let mut i: usize = 0;
    while i < bytes.len()
        invariant
            i <= bytes@.len(),
            plain <==> forall|j: int| 0 <= j < i ==> #[trigger] printable(bytes@[j]),
        decreases bytes.len() - i,
    {
        if bytes[i] < 0x20 || bytes[i] > 0x7e {
            assert(!printable(bytes@[i as int]));
            plain = false;
        }
        i += 1;
    }
    i = 0;
    if plain {
        out.push('"');
        while i < bytes.len()
            invariant
                i <= bytes@.len(),
                forall|j: int| 0 <= j < bytes@.len() ==> #[trigger] printable(bytes@[j]),
                out@ == start + seq!['"'] + quoted(bytes@, i as int),
            decreases bytes.len() - i,
        {
            let b: u8 = bytes[i];
            if b == 0x22 || b == 0x5c {
                out.push('\\');
            }
            out.push(b as char);
            i += 1;
            assert(out@ =~= start + seq!['"'] + quoted(bytes@, i as int));
        }
        out.push('"');
    } else {
        out.push('0');
        out.push('x');
        while i < bytes.len()
            invariant
                i <= bytes@.len(),
                out@ == start + seq!['0', 'x'] + hex(bytes@, i as int),
            decreases bytes.len() - i,
        {
            let b: u8 = bytes[i];
            push_digit(out, b / 16);
            push_digit(out, b % 16);
            i += 1;
            assert(out@ =~= start + seq!['0', 'x'] + hex(bytes@, i as int));
        }
    }
    assert(out@ =~= start + bytes_text(bytes@));
}

/// The message of an error.
pub open spec fn message_of(e: ErrorView) -> Seq<char> {
    match e {
        ErrorView::EmptyToken => "An empty token or special token is present"@,
        ErrorView::DuplicateToken { token, first, second } => "The token "@ + bytes_text(token)
            + " appears twice, at positions "@ + decimal(first) + " and "@ + decimal(second),
        ErrorView::VocabTooLarge { what, len } => "the vocabulary is too large: "@ + decimal(len)
            + " "@ + what + " do not fit in a u32 index"@,
        ErrorView::MissingByteToken(b) => "The single-byte token 0x"@ + hex(seq![b], 1)
            + " is missing"@,
        ErrorView::NotProper { token, rank, pre, pre_rank, suc, suc_rank } =>
            "vocabulary is not proper: the canonical rule ("@ + bytes_text(pre) + " [rank "@
            + decimal(pre_rank) + "], "@ + bytes_text(suc) + " [rank "@ + decimal(suc_rank)
            + "]) -> "@ + bytes_text(token) + " [rank "@ + decimal(rank)
            + "] has a component whose rank is not smaller than the merged token's rank"@,
        ErrorView::TokenTooLong { token, len } => "the token starting with "@ + bytes_text(token)
            + " is "@ + decimal(len) + " bytes long; the limit is "@ + decimal(u16::MAX as int),
        ErrorView::SpecialIdConflict { token, id } => "the special token "@ + bytes_text(token)
            + " has id "@ + decimal(id)
            + ", which is already taken by the vocabulary's rank space or by another special token"@,
        ErrorView::SpecialTokenNotIsolated { special, container } => "the special token "@
            + bytes_text(special) + " occurs inside "@ + bytes_text(container)
            + ", so it cannot be detected reliably; no vocabulary token and no other special token may contain a special token"@,
        ErrorView::Automaton(m) => "failed to build the Aho-Corasick automaton: "@ + m,
    }
}

/// Whether a message holds a text.
pub open spec fn mentions(message: Seq<char>, text: Seq<char>) -> bool {
    exists|p: int|
        0 <= p && p + text.len() <= message.len() && #[trigger] message.subrange(
            p,
            p + text.len(),
        ) == text
}

/// A text that is put together from three holds the middle one.
proof fn lemma_mentions(message: Seq<char>, before: Seq<char>, text: Seq<char>, after: Seq<char>)
    requires
        message == before + text + after,
    ensures
        mentions(message, text),
{
    let p = before.len() as int;
    assert(message.subrange(p, p + text.len()) =~= text);
}

/// The message of an error mentions what the error holds: the byte strings, the positions, ranks,
/// lengths and ids, the byte, and the reason.
pub proof fn law_message_mentions_all(e: ErrorView)
    ensures
        match e {
            ErrorView::EmptyToken => true,
            ErrorView::DuplicateToken { token, first, second } => {
                &&& mentions(message_of(e), bytes_text(token))
                &&& mentions(message_of(e), decimal(first) + " and "@ + decimal(second))
            },
            ErrorView::VocabTooLarge { what, len } => mentions(
                message_of(e),
                decimal(len) + " "@ + what,
            ),
            ErrorView::MissingByteToken(b) => mentions(message_of(e), hex(seq![b], 1)),
            ErrorView::NotProper { token, rank, pre, pre_rank, suc, suc_rank } => {
                &&& mentions(message_of(e), bytes_text(pre) + " [rank "@ + decimal(pre_rank))
                &&& mentions(message_of(e), bytes_text(suc) + " [rank "@ + decimal(suc_rank))
                &&& mentions(message_of(e), bytes_text(token) + " [rank "@ + decimal(rank))
            },
            ErrorView::TokenTooLong { token, len } => {
                &&& mentions(message_of(e), bytes_text(token))
                &&& mentions(message_of(e), decimal(len))
            },
            ErrorView::SpecialIdConflict { token, id } => {
                &&& mentions(message_of(e), bytes_text(token))
                &&& mentions(message_of(e), decimal(id))
            },
            ErrorView::SpecialTokenNotIsolated { special, container } => mentions(
                message_of(e),
                bytes_text(special) + " occurs inside "@ + bytes_text(container),
            ),
            ErrorView::Automaton(m) => mentions(message_of(e), m),
        },
{
    let m = message_of(e);
    match e {
        ErrorView::EmptyToken => {},
        ErrorView::DuplicateToken { token, first, second } => {
            let a = "The token "@;
            let c = " appears twice, at positions "@;
            let pair = decimal(first) + " and "@ + decimal(second);
            assert(m =~= a + bytes_text(token) + (c + pair));
            lemma_mentions(m, a, bytes_text(token), c + pair);
            assert(m =~= (a + bytes_text(token) + c) + pair + Seq::empty());
            lemma_mentions(m, a + bytes_text(token) + c, pair, Seq::empty());
        },
        ErrorView::VocabTooLarge { what, len } => {
            let a = "the vocabulary is too large: "@;
            let b = " do not fit in a u32 index"@;
            let pair = decimal(len) + " "@ + what;
            assert(m =~= a + pair + b);
            lemma_mentions(m, a, pair, b);
        },
        ErrorView::MissingByteToken(b) => {
            lemma_mentions(m, "The single-byte token 0x"@, hex(seq![b], 1), " is missing"@);
        },
        ErrorView::NotProper { token, rank, pre, pre_rank, suc, suc_rank } => {
            let a = "vocabulary is not proper: the canonical rule ("@;
            let b = "], "@;
            let c = "]) -> "@;
            let d = "] has a component whose rank is not smaller than the merged token's rank"@;
            let x = bytes_text(pre) + " [rank "@ + decimal(pre_rank);
            let y = bytes_text(suc) + " [rank "@ + decimal(suc_rank);
            let z = bytes_text(token) + " [rank "@ + decimal(rank);
            assert(m =~= a + x + (b + y + c + z + d));
            lemma_mentions(m, a, x, b + y + c + z + d);
            assert(m =~= (a + x + b) + y + (c + z + d));
            lemma_mentions(m, a + x + b, y, c + z + d);
            assert(m =~= (a + x + b + y + c) + z + d);
            lemma_mentions(m, a + x + b + y + c, z, d);
        },
        ErrorView::TokenTooLong { token, len } => {
            let a = "the token starting with "@;
            let b = " is "@;
            let c = " bytes long; the limit is "@ + decimal(u16::MAX as int);
            assert(m =~= a + bytes_text(token) + (b + decimal(len) + c));
            lemma_mentions(m, a, bytes_text(token), b + decimal(len) + c);
            assert(m =~= (a + bytes_text(token) + b) + decimal(len) + c);
            lemma_mentions(m, a + bytes_text(token) + b, decimal(len), c);
        },
        ErrorView::SpecialIdConflict { token, id } => {
            let a = "the special token "@;
            let b = " has id "@;
            let c =
                ", which is already taken by the vocabulary's rank space or by another special token"@;
            assert(m =~= a + bytes_text(token) + (b + decimal(id) + c));
            lemma_mentions(m, a, bytes_text(token), b + decimal(id) + c);
            assert(m =~= (a + bytes_text(token) + b) + decimal(id) + c);
            lemma_mentions(m, a + bytes_text(token) + b, decimal(id), c);
        },
        ErrorView::SpecialTokenNotIsolated { special, container } => {
            let a = "the special token "@;
            let c =
                ", so it cannot be detected reliably; no vocabulary token and no other special token may contain a special token"@;
            let pair = bytes_text(special) + " occurs inside "@ + bytes_text(container);
            assert(m =~= a + pair + c);
            lemma_mentions(m, a, pair, c);
        },
        ErrorView::Automaton(reason) => {
            let a = "failed to build the Aho-Corasick automaton: "@;
            assert(m =~= a + reason + Seq::empty());
            lemma_mentions(m, a, reason, Seq::empty());
        },
    }
}

/// A byte string appears in quotation marks exactly if its bytes are spaces or visible ASCII
/// characters; then each byte other than a quotation mark or a backslash appears as the character
/// that it is.
pub proof fn law_bytes_text(bytes: Seq<u8>)
    ensures
        bytes_text(bytes).len() >= 2,
        (forall|i: int| 0 <= i < bytes.len() ==> 0x20 <= #[trigger] bytes[i] <= 0x7e)
            <==> bytes_text(bytes)[0] == '"',
        (forall|i: int|
            0 <= i < bytes.len() ==> 0x20 <= #[trigger] bytes[i] <= 0x7e && bytes[i] != 0x22
                && bytes[i] != 0x5c) ==> bytes_text(bytes) == seq!['"'] + Seq::new(
            bytes.len(),
            |i: int| bytes[i] as char,
        ) + seq!['"'],
        (exists|i: int| 0 <= i < bytes.len() && !(0x20 <= #[trigger] bytes[i] <= 0x7e))
            ==> bytes_text(bytes) == seq!['0', 'x'] + hex(bytes, bytes.len() as int),
{
    if forall|i: int| 0 <= i < bytes.len() ==> 0x20 <= #[trigger] bytes[i] <= 0x7e {
        assert forall|i: int| 0 <= i < bytes.len() implies #[trigger] printable(bytes[i]) by {}
    } else {
        let i = choose|i: int| 0 <= i < bytes.len() && !(0x20 <= #[trigger] bytes[i] <= 0x7e);
        assert(!printable(bytes[i]));
    }
    if forall|i: int|
        0 <= i < bytes.len() ==> 0x20 <= #[trigger] bytes[i] <= 0x7e && bytes[i] != 0x22 && bytes[i]
            != 0x5c {
        lemma_quoted_plain(bytes, bytes.len() as int);
        assert forall|i: int| 0 <= i < bytes.len() implies #[trigger] printable(bytes[i]) by {}
    }
}

proof fn lemma_quoted_plain(bytes: Seq<u8>, n: int)
    requires
        0 <= n <= bytes.len(),
        forall|i: int| 0 <= i < bytes.len() ==> #[trigger] bytes[i] != 0x22 && bytes[i] != 0x5c,
    ensures
        quoted(bytes, n) == Seq::new(n as nat, |i: int| bytes[i] as char),
    decreases n,
{
    if n > 0 {
        lemma_quoted_plain(bytes, n - 1);
        assert(bytes[n - 1] != 0x22);
    }
    assert(quoted(bytes, n) =~= Seq::new(n as nat, |i: int| bytes[i] as char));
}

impl Error {
    /// Describes the error.
    pub fn message(&self) -> (m: String)
        ensures
            m@ == message_of(self@),
    {
        let mut m: String = String::new();
        match self {
            Error::EmptyToken => {
                m.append("An empty token or special token is present");
            },
            Error::DuplicateToken { token, first, second } => {
                m.append("The token ");
                push_bytes(&mut m, token.as_slice());
                m.append(" appears twice, at positions ");
                push_decimal(&mut m, *first as u64);
                m.append(" and ");
                push_decimal(&mut m, *second as u64);
            },
            Error::VocabTooLarge { what, len } => {
                m.append("the vocabulary is too large: ");
                push_decimal(&mut m, *len as u64);
                m.append(" ");
                m.append(*what);
                m.append(" do not fit in a u32 index");
            },
            Error::MissingByteToken(b) => {
                m.append("The single-byte token 0x");
                let ghost start = m@;
                push_digit(&mut m, *b / 16);
                push_digit(&mut m, *b % 16);
                proof {
                    assert(hex(seq![*b], 0) =~= Seq::empty());
                    assert(m@ =~= start + hex(seq![*b], 1));
                }
                m.append(" is missing");
            },
            Error::NotProper { token, rank, pre, pre_rank, suc, suc_rank } => {
                m.append("vocabulary is not proper: the canonical rule (");
                push_bytes(&mut m, pre.as_slice());
                m.append(" [rank ");
                push_decimal(&mut m, *pre_rank as u64);
                m.append("], ");
                push_bytes(&mut m, suc.as_slice());
                m.append(" [rank ");
                push_decimal(&mut m, *suc_rank as u64);
                m.append("]) -> ");
                push_bytes(&mut m, token.as_slice());
                m.append(" [rank ");
                push_decimal(&mut m, *rank as u64);
                m.append("] has a component whose rank is not smaller than the merged token's rank");
            },
            Error::TokenTooLong { token, len } => {
                m.append("the token starting with ");
                push_bytes(&mut m, token.as_slice());
                m.append(" is ");
                push_decimal(&mut m, *len as u64);
                m.append(" bytes long; the limit is ");
                push_decimal(&mut m, u16::MAX as u64);
            },
            Error::SpecialIdConflict { token, id } => {
                m.append("the special token ");
                push_bytes(&mut m, token.as_slice());
                m.append(" has id ");
                push_decimal(&mut m, *id as u64);
                m.append(
                    ", which is already taken by the vocabulary's rank space or by another special token",
                );
            },
            Error::SpecialTokenNotIsolated { special, container } => {
                m.append("the special token ");
                push_bytes(&mut m, special.as_slice());
                m.append(" occurs inside ");
                push_bytes(&mut m, container.as_slice());
                m.append(
                    ", so it cannot be detected reliably; no vocabulary token and no other special token may contain a special token",
                );
            },
            Error::Automaton(reason) => {
                m.append("failed to build the Aho-Corasick automaton: ");
                m.append(reason.as_str());
            },
        }
        assert(m@ =~= message_of(self@));
        m
    }
}

} // verus!
