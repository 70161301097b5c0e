//! The guard of reserved spans: addresses of electronic mail, links and
//! handles are enclosed in marks, so that no operation of the library
//! changes them.
use crate::utils::patterns::detector_accepts;
use crate::utils::patterns::detector_compiles;
use crate::utils::patterns::detector_found;
use crate::utils::patterns::kept;
use crate::utils::patterns::lemma_kept_unmarked;
use crate::utils::patterns::lemma_kept_wrapped;
use crate::utils::patterns::lemma_unwrap_wrap;
use crate::utils::patterns::level;
use crate::utils::patterns::unmarked;
use crate::utils::patterns::unwrapped;
use crate::utils::patterns::wrap_regex;
use crate::utils::patterns::wrapped;
use vstd::prelude::*;

verus! {

/// An address of electronic mail: a local part of words joined by dots, the
/// sign `@`, a domain and a top-level domain of two to six small letters.
pub const MAIL_PATTERN: &'static str =
    "([a-zA-Z0-9_-]+(?:\\.[a-zA-Z0-9_-]+)*)@((?:[a-zA-Z0-9_-]+\\.)*[a-zA-Z0-9_][a-zA-Z0-9_-]{0,66})\\.([a-z]{2,6}(?:\\.[a-z]{2})?)";

/// A link: one of the schemes `http`, `https`, `ftp`, `file`, `ssh`, or a
/// host that begins with `www.` or `ftp.`, at the beginning of a word.
pub const URL_PATTERN: &'static str =
    "(?i)(?<![a-zA-Z0-9_])(?:(?:https?|ftp|file|ssh)://|www\\.|ftp\\.)[-A-Z0-9+&@#/%=~_|$?!:,.]*[A-Z0-9+&@#/%=~_|$]";

/// A handle: the sign `@` and a name, where no hyphen follows on the line.
/// An address of electronic mail is matched whole before a handle is looked
/// for inside it.
pub const USERNAME_PATTERN: &'static str =
    "([a-zA-Z0-9_-]+(?:\\.[a-zA-Z0-9_-]+)*)@((?:[a-zA-Z0-9_-]+\\.)*[a-zA-Z0-9_][a-zA-Z0-9_-]{0,66})\\.([a-z]{2,6}(?:\\.[a-z]{2})?)|@(?!.*-|.*-$)[a-zA-Z0-9][a-zA-Z0-9_-]+[a-zA-Z0-9]{0,39}";

/// A text with the matches of `pattern` marked.
pub open spec fn detected(text: Seq<char>, pattern: Seq<char>) -> Seq<char> {
    wrapped(text, detector_found(pattern, text))
}

/// Whether the engine accepts the three patterns of the guard.
pub open spec fn guard_ready() -> bool {
    &&& detector_accepts(MAIL_PATTERN@)
    &&& detector_accepts(URL_PATTERN@)
    &&& detector_accepts(USERNAME_PATTERN@)
}

/// The guarded form of a text: the addresses are marked first, then the
/// links in what came of that, then the handles. A later detector sees the
/// marks of an earlier one; an address is so marked twice, by the first and
/// by the last.
pub open spec fn guarded(text: Seq<char>) -> Seq<char> {
    detected(detected(detected(text, MAIL_PATTERN@), URL_PATTERN@), USERNAME_PATTERN@)
}

/// Marks the addresses of electronic mail.
pub fn wrap_mails(text: &str) -> (r: String)
    requires
        detector_accepts(MAIL_PATTERN@),
    ensures
        r@ == detected(text@, MAIL_PATTERN@),
{
    wrap_regex(text, MAIL_PATTERN)
}

/// Marks the links.
pub fn wrap_urls(text: &str) -> (r: String)
    requires
        detector_accepts(URL_PATTERN@),
    ensures
        r@ == detected(text@, URL_PATTERN@),
{
    wrap_regex(text, URL_PATTERN)
}

/// Marks the handles, and the addresses once more.
pub fn wrap_usernames(text: &str) -> (r: String)
    requires
        detector_accepts(USERNAME_PATTERN@),
    ensures
        r@ == detected(text@, USERNAME_PATTERN@),
{
    wrap_regex(text, USERNAME_PATTERN)
}

/// Marks the addresses, links and handles of `text`, in this order.
pub fn get_wrapped_text(text: &str) -> (r: String)
    requires
        guard_ready(),
    ensures
        r@ == guarded(text@),
{
    let mut result = wrap_mails(text);
    result = wrap_urls(result.as_str());
    result = wrap_usernames(result.as_str());
    result
}

/// Whether the engine accepts the three patterns of the guard.
pub fn guard_is_ready() -> (r: bool)
    ensures
        r == guard_ready(),
{
    detector_compiles(MAIL_PATTERN) && detector_compiles(URL_PATTERN) && detector_compiles(
        USERNAME_PATTERN,
    )
}

/// Taking the marks out of a guarded text gives the text back, whatever the
/// detectors found in it: exactly, where the text held no mark before.
pub proof fn lemma_guard_round_trip(text: Seq<char>)
    ensures
        unwrapped(guarded(text)) == unwrapped(text),
        unmarked(text) ==> unwrapped(guarded(text)) == text,
{
    let mails = detected(text, MAIL_PATTERN@);
    let urls = detected(mails, URL_PATTERN@);
    lemma_unwrap_wrap(text, detector_found(MAIL_PATTERN@, text));
    lemma_unwrap_wrap(mails, detector_found(URL_PATTERN@, mails));
    lemma_unwrap_wrap(urls, detector_found(USERNAME_PATTERN@, urls));
}

/// The marks of a guarded text are paired: in a text that held no mark
/// before, every closing mark closes a pair that was opened before it, and
/// every pair that is opened is closed.
pub proof fn lemma_guard_is_paired(text: Seq<char>)
    requires
        unmarked(text),
    ensures
        kept(guarded(text), 0, 0, -1),
        level(guarded(text), 0) == 0,
{
    let mails = detected(text, MAIL_PATTERN@);
    let urls = detected(mails, URL_PATTERN@);
    lemma_kept_unmarked(text, 0, 0, -1);
    lemma_kept_wrapped(text, detector_found(MAIL_PATTERN@, text), 0, 0, -1);
    lemma_kept_wrapped(mails, detector_found(URL_PATTERN@, mails), 0, 0, -1);
    lemma_kept_wrapped(urls, detector_found(USERNAME_PATTERN@, urls), 0, 0, -1);
}

} // verus!
