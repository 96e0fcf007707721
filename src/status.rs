use vstd::prelude::*;

verus! {

/// The status of a response, rendered as `"<code> <reason>"`.
#[allow(non_camel_case_types)]
pub enum StatusMessage {
    OK,
    NOT_FOUND,
    Custom(u32, String),
}

/// The decimal digits of `n`, most significant first.
pub open spec fn decimal(n: nat) -> Seq<char>
    decreases n,
{
    if n < 10 {
        seq![(n + 48) as char]
    } else {
        decimal(n / 10).push(((n % 10) + 48) as char)
    }
}

/// The status line text of a code and a reason phrase.
pub open spec fn status_line(code: nat, reason: Seq<char>) -> Seq<char> {
    decimal(code) + seq![' '] + reason
}

/// Relies on `format!` with `{} {}`: an integer's `Display` writes its decimal
/// digits, a string's `Display` writes the string unchanged.
#[verifier::external_body]
fn render_status(code: u32, reason: &str) -> (r: String)
    ensures
        r@ == status_line(code as nat, reason@),
{
    format!("{} {}", code, reason)
}

impl StatusMessage {
    /// The status line text of this status.
    pub open spec fn spec_text(&self) -> Seq<char> {
        match self {
            StatusMessage::OK => status_line(200, seq!['O', 'K']),
            StatusMessage::NOT_FOUND => status_line(404, seq!['N', 'o', 't', ' ', 'F', 'o', 'u', 'n', 'd']),
            StatusMessage::Custom(c, s) => status_line(*c as nat, s@),
        }
    }

    /// Renders the status as `"<code> <reason>"`.
    pub fn text(&self) -> (r: String)
        ensures
            r@ == self.spec_text(),
    {
        match self {
            StatusMessage::OK => {
                let r = render_status(200, "OK");
                proof { reveal_strlit("OK"); }
                r
            },
            StatusMessage::NOT_FOUND => {
                let r = render_status(404, "Not Found");
                proof { reveal_strlit("Not Found"); }
                r
            },
            StatusMessage::Custom(c, s) => render_status(*c, s.as_str()),
        }
    }
}

} // verus!
