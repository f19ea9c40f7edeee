use tendril::fmt::UTF8;
use tendril::SliceExt;
use tendril::Tendril;
use vstd::prelude::*;

verus! {

/// The most characters a text buffer is built from: a tendril holds at most
/// `u32::MAX` bytes, and a character takes at most four bytes in UTF-8.
pub const MAX_TEXT_CHARS: usize = 1073741823;

/// Text held in a `tendril` UTF-8 buffer.
#[verifier::external_body]
#[derive(Debug)]
pub struct Text {
    buf: Tendril<UTF8>,
}

/// The characters that a text buffer holds.
pub uninterp spec fn text_chars(t: Text) -> Seq<char>;

impl View for Text {
    type V = Seq<char>;

    open spec fn view(&self) -> Seq<char> {
        text_chars(*self)
    }
}

impl Text {
    /// Builds a buffer holding a copy of the given characters.
    ///
    /// Relies on `SliceExt::to_tendril` for `str` (`Tendril::from_slice`),
    /// which copies the slice's bytes into a new tendril. It panics beyond
    /// `u32::MAX` bytes, which the bound on the characters rules out.
    #[verifier::external_body]
    pub fn from_chars(cs: &[char]) -> (r: Text)
        requires
            cs@.len() <= MAX_TEXT_CHARS,
        ensures
            text_chars(r) == cs@,
    {
        let s: String = cs.iter().collect();
        Text { buf: s.as_str().to_tendril() }
    }

    /// The buffer's content as a string slice.
    ///
    /// Relies on `Deref<Target = str>` for `Tendril<UTF8>`, which views the
    /// buffer's bytes as the string they encode.
    #[verifier::external_body]
    pub fn as_str(&self) -> (r: &str)
        ensures
            r@ == text_chars(*self),
    {
        &self.buf
    }
}

impl Clone for Text {
    /// Relies on `Clone` for `Tendril`, which shares or copies the buffer and
    /// keeps its content.
    #[verifier::external_body]
    fn clone(&self) -> (r: Text)
        ensures
            text_chars(r) == text_chars(*self),
    {
        Text { buf: self.buf.clone() }
    }
}

} // verus!
