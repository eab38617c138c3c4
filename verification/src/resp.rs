//! The pure parts of the plain-text response rendering: the bodies the HTTP
//! adapter sends, without the HTTP framing around them.

use crate::clipboard::Clipboard;
use crate::error::extract_error_msg;
use crate::error::StoreError;
use vstd::prelude::*;
use vstd::string::*;

verus! {

/// A plain-text response in the making: the clipboard looked up (absent when
/// acknowledging a store), or the error to report.
pub struct ResponsePlain(pub Result<Option<Clipboard>, StoreError>);

impl ResponsePlain {
    /// The plain-text error body for clipboard `hash`: the client-visible
    /// message of `err` after the public/private filter.
    pub fn format_err(hash: &str, err: StoreError) -> (r: String)
        ensures
            r@ == "error for clipboard "@ + hash@ + ": "@ + (match err {
                StoreError::IoError(_) => "actix-drop bug"@,
                _ => err.message_spec(),
            }),
    {
        let mut out = String::from_str("error for clipboard ");
        out.append(hash);
        out.append(": ");
        let msg = extract_error_msg(err);
        out.append(msg.as_str());
        out
    }

    /// The plain-text body acknowledging a store under `hash`: the error
    /// body when the store failed, else where the clipboard is now served.
    pub fn post_clipboard(self, hash: &str) -> (r: String)
        ensures
            match self.0 {
                Err(e) => r@ == "error for clipboard "@ + hash@ + ": "@ + (match e {
                    StoreError::IoError(_) => "actix-drop bug"@,
                    _ => e.message_spec(),
                }),
                Ok(_) => r@ == "clipboard "@ + hash@ + " created and available at /api/drop/"@
                    + hash@,
            },
    {
        match self.0 {
            Err(err) => Self::format_err(hash, err),
            Ok(_) => {
                let mut out = String::from_str("clipboard ");
                out.append(hash);
                out.append(" created and available at /api/drop/");
                out.append(hash);
                out
            },
        }
    }
}

/// The HTML error body shown when a clipboard cannot be served: the
/// client-visible message of `err`, in a paragraph naming the handle.
pub fn html_format_err(hash: &str, err: StoreError) -> (r: String)
    ensures
        r@ == "<p>Error for clipboard "@ + hash@ + ": "@ + (match err {
            StoreError::IoError(_) => "actix-drop bug"@,
            _ => err.message_spec(),
        }) + "</p>"@,
{
    let mut out = String::from_str("<p>Error for clipboard ");
    out.append(hash);
    out.append(": ");
    let msg = extract_error_msg(err);
    out.append(msg.as_str());
    out.append("</p>");
    out
}

/// The HTML error body shown when a store failed.
pub fn html_post_error(hash: &str, err: StoreError) -> (r: String)
    ensures
        r@ == "<p>Error saving clipboard "@ + hash@ + ": "@ + (match err {
            StoreError::IoError(_) => "actix-drop bug"@,
            _ => err.message_spec(),
        }) + "</p>"@,
{
    let mut out = String::from_str("<p>Error saving clipboard ");
    out.append(hash);
    out.append(": ");
    let msg = extract_error_msg(err);
    out.append(msg.as_str());
    out.append("</p>");
    out
}

/// The HTML body acknowledging a store: the new handle, and the path where
/// the clipboard is now served.
pub fn html_post_saved(hash: &str) -> (r: String)
    ensures
        r@ == "<p>Clipboard with hash <code>"@ + hash@
            + "</code> created</p><p>The clipboard is now available at path <a href=\"/app/drop/"@
            + hash@ + "\"><code>/app/drop/"@ + hash@ + "</code></a></p>"@,
{
    let mut out = String::from_str("<p>Clipboard with hash <code>");
    out.append(hash);
    out.append(
        "</code> created</p><p>The clipboard is now available at path <a href=\"/app/drop/",
    );
    out.append(hash);
    out.append("\"><code>/app/drop/");
    out.append(hash);
    out.append("</code></a></p>");
    out
}

} // verus!
