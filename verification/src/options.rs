use vstd::prelude::*;
use vstd::string::{StringExecFns, StringSliceAdditionalSpecFns};
use vstd::utf8::{decode_utf8, encode_utf8, valid_utf8};
use crate::search::utf8_str;

verus! {

/// The byte `/`.
pub const SLASH: u8 = 0x2f;

/// Where an option is declared, as the option documents give it.
#[derive(Debug, Clone, PartialEq, Eq)]
pub enum Declaration {
    /// A path, usually into the store: `/nix/store/<hash>-source/modules/initrd.nix`.
    StorePath(String),
    /// A link that is a URL already.
    Url { name: String, url: String },
}

/// Why a declaration has no URL.
#[derive(Debug, Clone, Copy, PartialEq, Eq, Structural)]
pub enum DeclarationError {
    /// An absolute path with fewer than four slashes: there is nothing behind
    /// the store directory.
    InvalidStorePath,
    /// A text is no URL, or cannot be joined to one.
    InvalidUrl,
}

/// The serialization of the URL that `input` gives relative to `base`, where
/// both parse.
pub uninterp spec fn url_joined(base: Seq<char>, input: Seq<char>) -> Option<Seq<char>>;

/// The path of a URL, where the text is one.
pub uninterp spec fn url_path_of(url: Seq<char>) -> Option<Seq<char>>;

/// Calls `url::Url::parse` on `base` and `url::Url::join` on the result.
/// Trusted: whether both succeed, and the serialization of the joined URL,
/// depend on the two texts alone. Trusted as well, on the word of the
/// parser's documentation, which names errors and no panic: the calls return
/// for every text. The parser guards its own invariants with assertions that
/// nothing here shows to be out of reach.
#[verifier::external_body]
fn url_join(base: &str, input: &str) -> (joined: Option<String>)
    ensures
        joined is Some <==> url_joined(base@, input@) is Some,
        joined is Some ==> joined.unwrap()@ == url_joined(base@, input@).unwrap(),
{
    match url::Url::parse(base) {
        Ok(url) => match url.join(input) {
            Ok(joined) => Some(String::from(joined)),
            Err(_) => None,
        },
        Err(_) => None,
    }
}

/// Calls `url::Url::parse` and `url::Url::path`. Trusted: whether the text
/// parses, and the path of the URL, depend on the text alone; and, as for
/// [`url_join`], that the parser returns for every text.
#[verifier::external_body]
fn url_path(url: &str) -> (path: Option<String>)
    ensures
        path is Some <==> url_path_of(url@) is Some,
        path is Some ==> path.unwrap()@ == url_path_of(url@).unwrap(),
{
    match url::Url::parse(url) {
        Ok(url) => Some(url.path().to_owned()),
        Err(_) => None,
    }
}

/// The position behind the `n`-th slash at or after `from`.
pub open spec fn behind_slash(b: Seq<u8>, n: nat, from: int) -> Option<int>
    decreases b.len() - from,
{
    if from < 0 || from >= b.len() || n == 0 {
        None
    } else if b[from] == SLASH {
        if n == 1 {
            Some(from + 1)
        } else {
            behind_slash(b, (n - 1) as nat, from + 1)
        }
    } else {
        behind_slash(b, n, from + 1)
    }
}

/// What is left of a path once the store directory is taken off: an absolute
/// path loses everything up to its fourth slash and is refused if it has
/// fewer; a relative path stays as it is.
pub open spec fn store_tail(path: Seq<u8>) -> Option<Seq<u8>> {
    if path.len() > 0 && path[0] == SLASH {
        match behind_slash(path, 4, 0) {
            Some(i) => Some(path.subrange(i, path.len() as int)),
            None => None,
        }
    } else {
        Some(path)
    }
}

/// Whether `b` ends with `suffix`.
pub open spec fn ends_with(b: Seq<u8>, suffix: Seq<u8>) -> bool {
    suffix.len() <= b.len() && b.subrange(b.len() - suffix.len(), b.len() as int) == suffix
}

/// The bytes `.nix`.
pub open spec fn nix_suffix() -> Seq<u8> {
    seq![0x2eu8, 0x6eu8, 0x69u8, 0x78u8]
}

/// The position behind the last slash among the first `n` bytes, or zero.
pub open spec fn behind_last_slash(b: Seq<u8>, n: int) -> int
    decreases n,
{
    if n <= 0 || n > b.len() {
        0
    } else if b[n - 1] == SLASH {
        n
    } else {
        behind_last_slash(b, n - 1)
    }
}

/// The last segment of a URL's path: what follows the last slash of a path
/// that starts with one, and nothing for any other path.
pub open spec fn last_segment(path: Seq<u8>) -> Seq<u8> {
    if path.len() > 0 && path[0] == SLASH {
        path.subrange(behind_last_slash(path, path.len() as int), path.len() as int)
    } else {
        Seq::<u8>::empty()
    }
}

/// What must be joined to a URL with this path to make it name a file:
/// nothing if the path names a `.nix` file, `default.nix` if it ends with a
/// slash, and else the last segment once more with `default.nix` under it.
pub open spec fn default_target(path: Seq<u8>) -> Option<Seq<char>> {
    if ends_with(path, nix_suffix()) {
        None
    } else if ends_with(path, seq![SLASH]) {
        Some("default.nix"@)
    } else {
        Some(decode_utf8(last_segment(path)) + "/default.nix"@)
    }
}

/// The URL of a declaration before a file name is added: a path is joined to
/// the prefix without its store directory, a URL stands as it is.
pub open spec fn located(url_prefix: Seq<char>, declaration: Declaration) -> Result<
    Seq<char>,
    DeclarationError,
> {
    match declaration {
        Declaration::StorePath(path) => match store_tail(encode_utf8(path@)) {
            None => Err(DeclarationError::InvalidStorePath),
            Some(tail) => match url_joined(url_prefix, decode_utf8(tail)) {
                Some(url) => Ok(url),
                None => Err(DeclarationError::InvalidUrl),
            },
        },
        Declaration::Url { name, url } => Ok(url@),
    }
}

/// The URL with a file name: given the URL and its path, the URL itself or
/// the URL joined with what [`default_target`] asks for.
pub open spec fn completed(url: Seq<char>, path: Option<Seq<char>>) -> Result<
    Seq<char>,
    DeclarationError,
> {
    match path {
        None => Err(DeclarationError::InvalidUrl),
        Some(path) => match default_target(encode_utf8(path)) {
            None => Ok(url),
            Some(target) => match url_joined(url, target) {
                Some(joined) => Ok(joined),
                None => Err(DeclarationError::InvalidUrl),
            },
        },
    }
}

/// The URL of the file that a declaration names.
pub open spec fn declared_url(url_prefix: Seq<char>, declaration: Declaration) -> Result<
    Seq<char>,
    DeclarationError,
> {
    match located(url_prefix, declaration) {
        Err(e) => Err(e),
        Ok(url) => completed(url, url_path_of(url)),
    }
}

/// What follows an ASCII byte in text is text.
pub proof fn lemma_text_behind_ascii(b: Seq<u8>, i: int)
    requires
        valid_utf8(b),
        0 <= i < b.len(),
        b[i] <= 0x7f,
    ensures
        valid_utf8(b.subrange(i + 1, b.len() as int)),
{
    vstd::utf8::is_char_boundary_iff_not_is_continuation_byte(b, i);
    vstd::utf8::valid_utf8_split(b, i);
    let rest = b.subrange(i, b.len() as int);
    assert(rest[0] == b[i]);
    assert(vstd::utf8::pop_first_scalar(rest) =~= b.subrange(i + 1, b.len() as int));
}

/// The text of the bytes of `s` from `from` on, which must follow an ASCII
/// byte or start at the front.
fn text_from(s: &str, from: usize) -> (text: String)
    requires
        from <= s.spec_bytes().len(),
        from > 0 ==> s.spec_bytes()[from - 1] <= 0x7f,
    ensures
        text@ == decode_utf8(s.spec_bytes().subrange(from as int, s.spec_bytes().len() as int)),
{
    let bytes = s.as_bytes();
    proof {
        vstd::utf8::encode_utf8_valid_utf8(s@);
        if from > 0 {
            lemma_text_behind_ascii(bytes@, from - 1);
        } else {
            assert(bytes@.subrange(0, bytes@.len() as int) =~= bytes@);
        }
    }
    let tail = vstd::slice::slice_subrange(bytes, from, bytes.len());
    match utf8_str(tail) {
        Some(text) => {
            proof {
                vstd::utf8::encode_utf8_decode_utf8(text@);
            }
            text.to_owned()
        },
        None => {
            assert(false);
            String::new()
        },
    }
}

/// A store path without its store directory, or the relative path as it is.
pub fn store_path_tail(path: &str) -> (tail: Option<String>)
    ensures
        match store_tail(path.spec_bytes()) {
            Some(rest) => tail is Some && tail.unwrap()@ == decode_utf8(rest),
            None => tail is None,
        },
{
    let bytes = path.as_bytes();
    if bytes.len() == 0 || bytes[0] != SLASH {
        let whole = text_from(path, 0);
        assert(bytes@.subrange(0, bytes@.len() as int) =~= bytes@);
        return Some(whole);
    }
    let mut left: usize = 4;
    let mut i: usize = 0;
    while i < bytes.len()
        invariant
            i <= bytes.len(),
            1 <= left <= 4,
            bytes@ == path.spec_bytes(),
            bytes@.len() > 0,
            bytes@[0] == SLASH,
            behind_slash(bytes@, 4, 0) == behind_slash(bytes@, left as nat, i as int),
        decreases bytes.len() - i,
    {
        if bytes[i] == SLASH {
            if left == 1 {
                return Some(text_from(path, i + 1));
            }
            left -= 1;
        }
        i += 1;
    }
    None
}

/// Whether a byte string ends with another.
fn has_suffix(b: &[u8], suffix: &[u8]) -> (yes: bool)
    ensures
        yes == ends_with(b@, suffix@),
{
    if suffix.len() > b.len() {
        return false;
    }
    let start: usize = b.len() - suffix.len();
    let ghost window = b@.subrange(start as int, b@.len() as int);
    let mut k: usize = 0;
    while k < suffix.len()
        invariant
            k <= suffix.len(),
            start + suffix.len() == b.len(),
            window == b@.subrange(start as int, b@.len() as int),
            forall|j: int| 0 <= j < k ==> window[j] == suffix@[j],
        decreases suffix.len() - k,
    {
        if b[start + k] != suffix[k] {
            assert(window[k as int] != suffix@[k as int]);
            return false;
        }
        k += 1;
    }
    assert(window =~= suffix@);
    true
}

/// What must be joined to a URL with this path to make it name a file.
pub fn default_file(path: &str) -> (target: Option<String>)
    ensures
        match default_target(path.spec_bytes()) {
            Some(text) => target is Some && target.unwrap()@ == text,
            None => target is None,
        },
{
    let bytes = path.as_bytes();
    let nix: Vec<u8> = vec![0x2e, 0x6e, 0x69, 0x78];
    assert(nix@ =~= nix_suffix());
    if has_suffix(bytes, nix.as_slice()) {
        return None;
    }
    let slash: Vec<u8> = vec![SLASH];
    assert(slash@ =~= seq![SLASH]);
    if has_suffix(bytes, slash.as_slice()) {
        return Some(String::from_str("default.nix"));
    }
    let mut segment = if bytes.len() > 0 && bytes[0] == SLASH {
        let mut n: usize = bytes.len();
        while n > 0 && bytes[n - 1] != SLASH
            invariant
                n <= bytes.len(),
                behind_last_slash(bytes@, bytes@.len() as int) == behind_last_slash(
                    bytes@,
                    n as int,
                ),
            decreases n,
        {
            n -= 1;
        }
        text_from(path, n)
    } else {
        proof {
            assert(decode_utf8(Seq::<u8>::empty()) =~= Seq::<char>::empty());
        }
        String::new()
    };
    segment.append("/default.nix");
    Some(segment)
}

/// The view of an optional text.
pub open spec fn text_view(text: Option<String>) -> Option<Seq<char>> {
    match text {
        Some(text) => Some(text@),
        None => None,
    }
}

/// The URL with a file name, given the URL and its path: the URL itself where
/// the path names a `.nix` file, else the URL joined with `default.nix` or
/// with its last segment and `default.nix`.
pub fn complete_url(url: String, path: Option<String>) -> (done: Result<String, DeclarationError>)
    ensures
        match completed(url@, text_view(path)) {
            Ok(text) => done is Ok && done.unwrap()@ == text,
            Err(e) => done == Err::<String, DeclarationError>(e),
        },
{
    let path = match path {
        Some(path) => path,
        None => {
            return Err(DeclarationError::InvalidUrl);
        },
    };
    match default_file(path.as_str()) {
        None => Ok(url),
        Some(target) => match url_join(url.as_str(), target.as_str()) {
            Some(joined) => Ok(joined),
            None => Err(DeclarationError::InvalidUrl),
        },
    }
}

/// The URL of the file that a declaration names: a store path is joined to
/// `url_prefix` without its store directory, and a URL that names no `.nix`
/// file gets `default.nix` added.
pub fn update_declaration(url_prefix: &str, declaration: Declaration) -> (url: Result<
    String,
    DeclarationError,
>)
    ensures
        match declared_url(url_prefix@, declaration) {
            Ok(text) => url is Ok && url.unwrap()@ == text,
            Err(e) => url == Err::<String, DeclarationError>(e),
        },
{
    let url = match declaration {
        Declaration::StorePath(path) => match store_path_tail(path.as_str()) {
            None => {
                return Err(DeclarationError::InvalidStorePath);
            },
            Some(tail) => match url_join(url_prefix, tail.as_str()) {
                Some(url) => url,
                None => {
                    return Err(DeclarationError::InvalidUrl);
                },
            },
        },
        Declaration::Url { name: _, url } => url,
    };
    let path = url_path(url.as_str());
    complete_url(url, path)
}

/// Whether `b` starts with `prefix`.
pub open spec fn starts_with(b: Seq<u8>, prefix: Seq<u8>) -> bool {
    prefix.len() <= b.len() && b.subrange(0, prefix.len() as int) == prefix
}

/// Whether an option of this name is indexed: the module arguments and the
/// imports of modular services are left out.
pub open spec fn indexed(name: Seq<u8>) -> bool {
    name != "_module.args".spec_bytes() && !starts_with(name, "<imports = [ pkgs.".spec_bytes())
}

/// Whether an option of this name is indexed.
pub fn is_indexed(name: &str) -> (yes: bool)
    ensures
        yes == indexed(name.spec_bytes()),
{
    let bytes = name.as_bytes();
    let hidden = "_module.args".as_bytes();
    let imports = "<imports = [ pkgs.".as_bytes();
    if crate::text::bytes_eq(bytes, hidden) {
        return false;
    }
    if imports.len() > bytes.len() {
        return true;
    }
    let front = vstd::slice::slice_subrange(bytes, 0, imports.len());
    !crate::text::bytes_eq(front, imports)
}

/// The name under which an option is indexed: behind the prefix of its
/// scope and a dot, where the scope has one.
pub fn qualified_name(prefix: Option<&str>, name: &str) -> (full: String)
    ensures
        full@ == (match prefix {
            Some(prefix) => prefix@ + "."@ + name@,
            None => name@,
        }),
{
    match prefix {
        Some(prefix) => {
            let mut full = String::from_str(prefix);
            full.append(".");
            full.append(name);
            full
        },
        None => String::from_str(name),
    }
}

} // verus!
