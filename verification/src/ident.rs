//! Client identity: a per-process 128-bit identifier, held in its
//! canonical hyphenated textual form and used to suppress echoes.

use vstd::prelude::*;

use crate::message::MSG_SEPARATOR;

verus! {

/// A character of the textual form of a client identifier: a lowercase
/// hexadecimal digit or a hyphen.
pub open spec fn is_id_char(c: char) -> bool {
    ('0' <= c && c <= '9') || ('a' <= c && c <= 'f') || c == '-'
}

/// Well-formed identifier text: 36 characters, hexadecimal digits and
/// hyphens — the canonical hyphenated rendering of a 128-bit value.
pub open spec fn is_id_text(s: Seq<char>) -> bool {
    s.len() == 36 && forall|i: int| 0 <= i < s.len() ==> is_id_char(#[trigger] s[i])
}

/// Identifier text is ASCII and contains neither the payload separator nor
/// a NUL, so it survives framing and splits off cleanly.
pub proof fn lemma_id_text_clean(s: Seq<char>)
    requires
        is_id_text(s),
    ensures
        vstd::utf8::is_ascii_chars(s),
        forall|i: int| 0 <= i < s.len() ==> s[i] != MSG_SEPARATOR,
        forall|i: int| 0 <= i < s.len() ==> s[i] != '\0',
{
    assert forall|i: int| 0 <= i < s.len() implies '\0' <= s[i] <= '\u{7f}' && s[i]
        != MSG_SEPARATOR && s[i] != '\0' by {
        assert(is_id_char(s[i]));
    }
}

/// The identity a client mints once at start and stamps into every frame
/// it sends.
pub struct ClientId {
    text: String,
}

impl View for ClientId {
    type V = Seq<char>;

    closed spec fn view(&self) -> Seq<char> {
        self.text@
    }
}

impl ClientId {
    /// The held text has the canonical identifier shape.
    pub open spec fn wf(&self) -> bool {
        is_id_text(self@)
    }

    /// Relies on `uuid::Uuid::new_v4` and the `Display` rendering of
    /// `uuid::Uuid`: a fresh random UUID written in the hyphenated
    /// lowercase form — 36 characters, each a lowercase hexadecimal digit
    /// or a hyphen. The value is random, so nothing more is promised.
    #[verifier::external_body]
    fn fresh_uuid_text() -> (r: String)
        ensures
            r@.len() == 36,
            forall|i: int| 0 <= i < r@.len() ==> is_id_char(#[trigger] r@[i]),
    {
        uuid::Uuid::new_v4().to_string()
    }

    /// Mint the identifier for this process.
    pub fn mint() -> (id: ClientId)
        ensures
            id.wf(),
    {
        ClientId { text: Self::fresh_uuid_text() }
    }

    /// Adopt existing text as an identifier, if it has the right shape.
    pub fn from_text(text: String) -> (r: Option<ClientId>)
        ensures
            r is Some <==> is_id_text(text@),
            r matches Some(id) ==> id@ == text@,
    {
        let n = text.as_str().unicode_len();
        if n != 36 {
            return None;
        }
        let mut i: usize = 0;
        while i < n
            invariant
                i <= n,
                n == text@.len(),
                forall|j: int| 0 <= j < i ==> is_id_char(#[trigger] text@[j]),
            decreases n - i,
        {
            let c = text.as_str().get_char(i);
            if !(('0' <= c && c <= '9') || ('a' <= c && c <= 'f') || c == '-') {
                return None;
            }
            i = i + 1;
        }
        Some(ClientId { text })
    }

    /// The textual form, as it appears on the wire.
    pub fn as_text(&self) -> (r: &str)
        ensures
            r@ == self@,
    {
        self.text.as_str()
    }

    /// Does `other` spell this identifier?
    pub fn matches_text(&self, other: &str) -> (r: bool)
        ensures
            r == (self@ == other@),
    {
        let o = String::from_str(other);
        self.text == o
    }

    /// An identical copy, for handing to another task.
    pub fn duplicate(&self) -> (r: ClientId)
        ensures
            r@ == self@,
    {
        ClientId { text: self.text.clone() }
    }
}

} // verus!
