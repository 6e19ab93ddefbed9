//! The document record the application shell passes around, and the rule
//! that derives a default file name from a document's title.

use vstd::prelude::*;

verus! {

/// A document: its identifier, title, text content, and the path it was
/// loaded from or saved to, if any.
#[derive(Debug, Clone, PartialEq)]
pub struct DocumentData {
    pub id: String,
    pub title: String,
    pub content: String,
    pub file_path: Option<String>,
}

/// Whether a character counts as alphanumeric for file-name purposes.
pub uninterp spec fn alnum(c: char) -> bool;

/// Relies on `char::is_alphanumeric`: whether the character is in the
/// Unicode Alphabetic or Number categories, a property of the character
/// alone whose table no short specification can state.
#[verifier::external_body]
fn alnum_char(c: char) -> (r: bool)
    ensures
        r == alnum(c),
{
    c.is_alphanumeric()
}

/// A title reduced to file-name form: alphanumeric characters, `-` and
/// `_` are kept, spaces become `_`, everything else is dropped.
pub open spec fn sanitize_title(t: Seq<char>) -> Seq<char>
    decreases t.len(),
{
    if t.len() == 0 {
        Seq::empty()
    } else {
        let rest = sanitize_title(t.drop_last());
        let c = t.last();
        if c == ' ' {
            rest.push('_')
        } else if alnum(c) || c == '-' || c == '_' {
            rest.push(c)
        } else {
            rest
        }
    }
}

/// The `.canvas` file name derived from a document's title, used when a
/// document is saved without a path.
pub fn default_document_filename(title: &str) -> (r: String)
    ensures
        r@ == sanitize_title(title@) + ".canvas"@,
{
    let n = title.unicode_len();
    let mut out = String::from_str("");
    proof {
        reveal_strlit("");
        assert(title@.take(0) =~= Seq::<char>::empty());
        assert(out@ =~= sanitize_title(title@.take(0)));
    }
    let mut i: usize = 0;
    while i < n
        invariant
            0 <= i <= n,
            n == title@.len(),
            out@ == sanitize_title(title@.take(i as int)),
        decreases n - i,
    {
        let c = title.get_char(i);
        proof {
            assert(title@.take(i as int + 1).drop_last() =~= title@.take(i as int));
            assert(title@.take(i as int + 1).last() == title@[i as int]);
        }
        if c == ' ' {
            out.append("_");
            proof {
                reveal_strlit("_");
                assert(out@ =~= sanitize_title(title@.take(i as int + 1)));
            }
        } else if alnum_char(c) || c == '-' || c == '_' {
            let piece = title.substring_char(i, i + 1);
            out.append(piece);
            proof {
                assert(piece@ =~= seq![title@[i as int]]);
                assert(out@ =~= sanitize_title(title@.take(i as int + 1)));
            }
        } else {
            proof {
                assert(out@ =~= sanitize_title(title@.take(i as int + 1)));
            }
        }
        i = i + 1;
    }
    proof {
        assert(title@.take(n as int) =~= title@);
    }
    out.concat(".canvas")
}

} // verus!
