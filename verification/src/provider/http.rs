//! What providers over HTTP have in common.
use crate::provider::ProviderError;
use crate::text::{chars_of, text_of, text_same};
use vstd::prelude::*;

verus! {

/// How many redirects are followed.
pub const MAX_REDIRECTS: usize = 10;

/// What a secret is replaced with.
pub const REDACTED: &'static str = "[redacted]";

/// What is said of a completion that was cut off.
pub const TRUNCATED: &'static str = "completion truncated by output length limit";

/// `url` without the slashes it ends with.
pub open spec fn without_slashes(url: Seq<char>) -> Seq<char>
    decreases url.len(),
{
    if url.len() > 0 && url.last() == '/' {
        without_slashes(url.drop_last())
    } else {
        url
    }
}

/// The address of a path below `base_url`.
pub fn join_url(base_url: &str, path: &str) -> (r: String)
    ensures
        r@ == without_slashes(base_url@) + path@,
{
    let cs: Vec<char> = chars_of(base_url);
    let mut end: usize = cs.len();
    proof {
        assert(cs@.take(cs@.len() as int) =~= cs@);
    }
    while end > 0 && cs[end - 1] == '/'
        invariant
            end <= cs@.len(),
            without_slashes(cs@.take(end as int)) == without_slashes(cs@),
        decreases end,
    {
        proof {
            assert(cs@.take(end as int).drop_last() =~= cs@.take(end - 1));
        }
        end -= 1;
    }
    let mut r: String = text_of(&cs, 0, end);
    proof {
        assert(cs@.subrange(0, end as int) =~= cs@.take(end as int));
    }
    r.push_str(path);
    r
}

/// Slashes at the end of an address make no difference, and none is left
/// before the path that is joined to it.
pub proof fn trailing_slashes_do_not_matter(url: Seq<char>)
    ensures
        without_slashes(url.push('/')) == without_slashes(url),
        without_slashes(url).len() > 0 ==> without_slashes(url).last() != '/',
    decreases url.len(),
{
    assert(url.push('/').drop_last() =~= url);
    if url.len() > 0 && url.last() == '/' {
        trailing_slashes_do_not_matter(url.drop_last());
    }
}

/// A completion that ended for this reason was cut off at its length limit.
pub fn reject_length_limit(reason: Option<&str>, length_reason: &str) -> (r: Result<
    (),
    ProviderError,
>)
    ensures
        match r {
            Ok(()) => !(reason matches Some(reason) && reason@ == length_reason@),
            Err(ProviderError::InvalidResponse(text)) => text@ == TRUNCATED@ && (reason matches
                Some(reason) && reason@ == length_reason@),
            Err(_) => false,
        },
{
    if let Some(reason) = reason {
        if text_same(reason, length_reason) {
            return Err(ProviderError::InvalidResponse(TRUNCATED.to_owned()));
        }
    }
    Ok(())
}

/// `s` with every `from` in it replaced by `to`, from the left.
pub open spec fn replaced(s: Seq<char>, from: Seq<char>, to: Seq<char>) -> Seq<char>
    decreases s.len(),
{
    if from.len() == 0 || s.len() < from.len() {
        s
    } else if s.take(from.len() as int) == from {
        to + replaced(s.skip(from.len() as int), from, to)
    } else {
        seq![s[0]] + replaced(s.skip(1), from, to)
    }
}

fn stands_at(cs: &Vec<char>, at: usize, word: &Vec<char>) -> (r: bool)
    requires
        at + word@.len() <= cs@.len(),
    ensures
        r == (cs@.subrange(at as int, at + word@.len()) == word@),
{
    let total: usize = cs.len();
    let mut k: usize = 0;
    while k < word.len()
        invariant
            k <= word@.len(),
            total == cs@.len(),
            at + word@.len() <= total,
            forall|t: int| 0 <= t < k ==> cs@[at + t] == #[trigger] word@[t],
        decreases word@.len() - k,
    {
        if cs[at + k] != word[k] {
            assert(cs@.subrange(at as int, at + word@.len())[k as int] != word@[k as int]);
            return false;
        }
        k += 1;
    }
    assert(cs@.subrange(at as int, at + word@.len()) =~= word@);
    true
}

/// The message with every occurrence of the secret replaced.
pub open spec fn redacted(message: Seq<char>, secret: Seq<char>) -> Seq<char> {
    replaced(message, secret, REDACTED@)
}

/// Replaces the secret wherever it stands in the message.
pub fn redact(message: &str, secret: &str) -> (r: String)
    ensures
        r@ == redacted(message@, secret@),
{
    let cs: Vec<char> = chars_of(message);
    let word: Vec<char> = chars_of(secret);
    if word.len() == 0 {
        return message.to_owned();
    }
    let mut r: String = String::new();
    let mut at: usize = 0;
    proof {
        assert(cs@.skip(0) =~= cs@);
        assert(r@ + replaced(cs@, word@, REDACTED@) =~= replaced(cs@, word@, REDACTED@));
    }
    while at < cs.len() && word.len() <= cs.len() - at
        invariant
            at <= cs@.len(),
            word@.len() > 0,
            r@ + replaced(cs@.skip(at as int), word@, REDACTED@) == replaced(
                cs@,
                word@,
                REDACTED@,
            ),
        decreases cs@.len() - at,
    {
        let ghost rest = cs@.skip(at as int);
        let ghost before = r@;
        proof {
            assert(rest.take(word@.len() as int) =~= cs@.subrange(at as int, at + word@.len()));
            assert(rest.skip(word@.len() as int) =~= cs@.skip(at + word@.len()));
            assert(rest.skip(1) =~= cs@.skip(at + 1));
        }
        if stands_at(&cs, at, &word) {
            r.push_str(REDACTED);
            at += word.len();
            proof {
                assert(before + (REDACTED@ + replaced(cs@.skip(at as int), word@, REDACTED@)) =~= (
                before + REDACTED@) + replaced(cs@.skip(at as int), word@, REDACTED@));
            }
        } else {
            r.push(cs[at]);
            at += 1;
            proof {
                assert(before + (seq![rest[0]] + replaced(cs@.skip(at as int), word@, REDACTED@))
                    =~= before.push(rest[0]) + replaced(cs@.skip(at as int), word@, REDACTED@));
            }
        }
    }
    let tail: String = text_of(&cs, at, cs.len());
    proof {
        assert(cs@.subrange(at as int, cs@.len() as int) =~= cs@.skip(at as int));
    }
    r.push_str(tail.as_str());
    r
}

/// `word` stands in `s` at `p`.
pub open spec fn occurs_at(word: Seq<char>, s: Seq<char>, p: int) -> bool {
    0 <= p && p + word.len() <= s.len() && s.subrange(p, p + word.len()) == word
}

/// `word` stands somewhere in `s`.
pub open spec fn occurs(word: Seq<char>, s: Seq<char>) -> bool {
    exists|p: int| #[trigger] occurs_at(word, s, p)
}

/// Neither text stands in the other, and no end of one is a start of the other.
pub open spec fn clear_of(word: Seq<char>, mark: Seq<char>) -> bool {
    &&& !occurs(word, mark)
    &&& !occurs(mark, word)
    &&& forall|t: int|
        0 < t < word.len() && t < mark.len() ==> #[trigger] mark.skip(mark.len() - t) != word.take(t)
    &&& forall|t: int|
        0 < t < word.len() && t < mark.len() ==> #[trigger] mark.take(t) != word.skip(
            word.len() - t,
        )
}

/// Up to its first replacement, the text stays as it was.
proof fn first_replacement(s: Seq<char>, word: Seq<char>, mark: Seq<char>) -> (k: int)
    requires
        word.len() > 0,
    ensures
        0 <= k <= s.len(),
        k <= replaced(s, word, mark).len(),
        replaced(s, word, mark).take(k) == s.take(k),
        k == s.len() ==> replaced(s, word, mark) == s,
        k < s.len() ==> occurs_at(mark, replaced(s, word, mark), k),
    decreases s.len(),
{
    let out = replaced(s, word, mark);
    if s.len() < word.len() {
        s.len() as int
    } else if s.take(word.len() as int) == word {
        assert(out.subrange(0, mark.len() as int) =~= mark);
        assert(occurs_at(mark, out, 0));
        assert(out.take(0) =~= s.take(0));
        0
    } else {
        let rest = s.skip(1);
        let j = first_replacement(rest, word, mark);
        let inner = replaced(rest, word, mark);
        assert(out =~= seq![s[0]] + inner);
        assert(out.take(j + 1) =~= seq![s[0]] + inner.take(j));
        assert(s.take(j + 1) =~= seq![s[0]] + rest.take(j));
        if j == rest.len() {
            assert(out =~= s);
        } else {
            assert(out.subrange(j + 1, j + 1 + mark.len()) =~= inner.subrange(j, j + mark.len()));
            assert(occurs_at(mark, out, j + 1));
        }
        j + 1
    }
}

proof fn nothing_left_at(s: Seq<char>, word: Seq<char>, mark: Seq<char>, p: int)
    requires
        word.len() > 0,
        clear_of(word, mark),
    ensures
        !occurs_at(word, replaced(s, word, mark), p),
    decreases s.len(),
{
    let out = replaced(s, word, mark);
    let m = word.len() as int;
    if occurs_at(word, out, p) {
        if s.len() < m {
        } else if s.take(m) == word {
            let rest = replaced(s.skip(m), word, mark);
            assert(out == mark + rest);
            if p >= mark.len() {
                nothing_left_at(s.skip(m), word, mark, p - mark.len());
                assert(rest.subrange(p - mark.len(), p - mark.len() + m) =~= out.subrange(
                    p,
                    p + m,
                ));
                assert(occurs_at(word, rest, p - mark.len()));
            } else if p + m <= mark.len() {
                assert(mark.subrange(p, p + m) =~= out.subrange(p, p + m));
                assert(occurs_at(word, mark, p));
            } else {
                let t = mark.len() - p;
                assert(mark.skip(p) =~= out.subrange(p, p + m).take(t));
                assert(mark.skip(mark.len() - t) == word.take(t));
                if p == 0 {
                    assert(word.subrange(0, mark.len() as int) =~= mark);
                    assert(occurs_at(mark, word, 0));
                } else if t == m {
                    assert(mark.subrange(p, p + m) =~= word);
                    assert(occurs_at(word, mark, p));
                }
            }
        } else {
            let rest = replaced(s.skip(1), word, mark);
            assert(out == seq![s[0]] + rest);
            if p >= 1 {
                nothing_left_at(s.skip(1), word, mark, p - 1);
                assert(rest.subrange(p - 1, p - 1 + m) =~= out.subrange(p, p + m));
                assert(occurs_at(word, rest, p - 1));
            } else {
                let k = first_replacement(s, word, mark);
                assert(out.subrange(0, m) == word);
                if k >= m {
                    assert(s.take(m) =~= s.take(k).take(m));
                    assert(out.subrange(0, m) =~= out.take(k).take(m));
                } else if k < s.len() {
                    if k + mark.len() <= m {
                        assert(word.subrange(k, k + mark.len()) =~= out.subrange(
                            k,
                            k + mark.len(),
                        ));
                        assert(occurs_at(mark, word, k));
                    } else {
                        let t = m - k;
                        assert(mark.take(t) =~= out.subrange(k, k + mark.len()).take(t));
                        assert(word.skip(k) =~= out.subrange(0, m).skip(k));
                        assert(mark.take(t) =~= word.skip(m - t));
                        if t == m {
                            assert(mark.subrange(0, m) =~= word);
                            assert(occurs_at(word, mark, 0));
                        }
                    }
                }
            }
        }
    }
}

/// A redacted message no longer holds the secret, unless the secret shares
/// characters at its ends with the mark that replaces it, or one of the two is
/// part of the other.
pub proof fn redaction_hides_the_secret(message: Seq<char>, secret: Seq<char>)
    requires
        secret.len() > 0,
        clear_of(secret, REDACTED@),
    ensures
        !occurs(secret, redacted(message, secret)),
{
    if occurs(secret, redacted(message, secret)) {
        let p = choose|p: int| #[trigger] occurs_at(secret, redacted(message, secret), p);
        nothing_left_at(message, secret, REDACTED@, p);
    }
}

/// What came back over HTTP, once the whole body has been read.
pub fn http_outcome(success: bool, status: &str, body: &str, secret: &str) -> (r: Result<
    (),
    ProviderError,
>)
    ensures
        match r {
            Ok(()) => success,
            Err(ProviderError::RequestFailed(text)) => !success && text@ == redacted(
                "HTTP "@ + status@ + ": "@ + body@,
                secret@,
            ),
            Err(_) => false,
        },
{
    if success {
        return Ok(());
    }
    let mut message: String = "HTTP ".to_owned();
    message.push_str(status);
    message.push_str(": ");
    message.push_str(body);
    Err(ProviderError::RequestFailed(redact(message.as_str(), secret)))
}

/// A request that could not be sent or answered.
pub fn request_failed(cause: &str, secret: &str) -> (r: ProviderError)
    ensures
        r matches ProviderError::RequestFailed(text) && text@ == redacted(cause@, secret@),
{
    ProviderError::RequestFailed(redact(cause, secret))
}

/// An answer that is not the JSON it should be.
pub fn invalid_json(cause: &str, secret: &str) -> (r: ProviderError)
    ensures
        r matches ProviderError::InvalidResponse(text) && text@ == redacted(cause@, secret@),
{
    ProviderError::InvalidResponse(redact(cause, secret))
}

/// Where a URL leads, apart from its path.
#[derive(Debug)]
pub struct Origin {
    pub scheme: String,
    pub host: Option<String>,
    pub port: Option<u16>,
}

/// Both URLs lead to the same place.
pub open spec fn is_same_origin(left: Origin, right: Origin) -> bool {
    &&& left.scheme@ == right.scheme@
    &&& match (left.host, right.host) {
        (Some(left), Some(right)) => left@ == right@,
        (None, None) => true,
        _ => false,
    }
    &&& left.port == right.port
}

/// Whether both URLs lead to the same place.
pub fn same_origin(left: &Origin, right: &Origin) -> (r: bool)
    ensures
        r == is_same_origin(*left, *right),
{
    let hosts: bool = match (&left.host, &right.host) {
        (Some(left), Some(right)) => text_same(left.as_str(), right.as_str()),
        (None, None) => true,
        _ => false,
    };
    let ports: bool = match (left.port, right.port) {
        (Some(left), Some(right)) => left == right,
        (None, None) => true,
        _ => false,
    };
    text_same(left.scheme.as_str(), right.scheme.as_str()) && hosts && ports
}

/// What to do with a redirect.
#[derive(Debug, Clone, Copy, PartialEq, Eq, Structural)]
pub enum RedirectStep {
    TooMany,
    Follow,
    Stop,
}

/// What to do with a redirect after `followed` addresses, the last of which is
/// `previous`: a key must not be carried to another place.
pub fn redirect_step(followed: usize, previous: Option<&Origin>, next: &Origin) -> (r: RedirectStep)
    ensures
        r == (if followed > MAX_REDIRECTS {
            RedirectStep::TooMany
        } else {
            match previous {
                Some(previous) => if is_same_origin(*previous, *next) {
                    RedirectStep::Follow
                } else {
                    RedirectStep::Stop
                },
                None => RedirectStep::Follow,
            }
        }),
{
    if followed > MAX_REDIRECTS {
        return RedirectStep::TooMany;
    }
    match previous {
        Some(previous) => if same_origin(previous, next) {
            RedirectStep::Follow
        } else {
            RedirectStep::Stop
        },
        None => RedirectStep::Follow,
    }
}

/// Only slashes are taken from the end of an address.
pub proof fn only_slashes_are_dropped(url: Seq<char>) -> (slashes: Seq<char>)
    ensures
        url == without_slashes(url) + slashes,
        forall|i: int| 0 <= i < slashes.len() ==> #[trigger] slashes[i] == '/',
        without_slashes(url).len() > 0 ==> without_slashes(url)[without_slashes(url).len() - 1]
            != '/',
    decreases url.len(),
{
    if url.len() > 0 && url.last() == '/' {
        let rest = only_slashes_are_dropped(url.drop_last());
        let slashes = rest.push('/');
        assert(url =~= url.drop_last().push('/'));
        assert(url =~= without_slashes(url.drop_last()) + slashes);
        slashes
    } else {
        assert(url =~= url + Seq::<char>::empty());
        Seq::empty()
    }
}

/// A message that does not hold the secret is told as it is.
pub proof fn messages_without_the_secret_stay(message: Seq<char>, secret: Seq<char>)
    requires
        secret.len() == 0 || !occurs(secret, message),
    ensures
        redacted(message, secret) == message,
    decreases message.len(),
{
    if secret.len() > 0 && message.len() >= secret.len() {
        if message.take(secret.len() as int) == secret {
            assert(message.subrange(0, secret.len() as int) =~= secret);
            assert(occurs_at(secret, message, 0));
        }
        let rest = message.skip(1);
        if occurs(secret, rest) {
            let p = choose|p: int| #[trigger] occurs_at(secret, rest, p);
            assert(message.subrange(p + 1, p + 1 + secret.len()) =~= rest.subrange(
                p,
                p + secret.len(),
            ));
            assert(occurs_at(secret, message, p + 1));
        }
        messages_without_the_secret_stay(rest, secret);
        assert(seq![message[0]] + rest =~= message);
    }
}

/// The secret is replaced by the mark and nothing but the secret is: where it
/// stands at the start it gives way to the mark, and any other first character
/// is kept, with the rest told in the same way.
pub proof fn only_the_secret_is_replaced(rest: Seq<char>, secret: Seq<char>, c: char)
    requires
        secret.len() > 0,
    ensures
        redacted(secret + rest, secret) == "[redacted]"@ + redacted(rest, secret),
        !occurs_at(secret, seq![c] + rest, 0) ==> redacted(seq![c] + rest, secret) == seq![c]
            + redacted(rest, secret),
{
    let all = secret + rest;
    assert(all.take(secret.len() as int) =~= secret);
    assert(all.skip(secret.len() as int) =~= rest);
    let other = seq![c] + rest;
    assert(other.skip(1) =~= rest);
    if !occurs_at(secret, other, 0) && other.len() >= secret.len() {
        assert(other.subrange(0, secret.len() as int) =~= other.take(secret.len() as int));
    }
    if other.len() < secret.len() {
        assert(rest.len() < secret.len());
    }
}

/// Whatever `join_url` returns is the address without its last slashes, followed
/// by the path.
pub proof fn paths_follow_the_address(base_url: &str, path: &str, r: String) -> (slashes: Seq<char>)
    requires
        call_ensures(join_url, (base_url, path), r),
    ensures
        r@.len() + slashes.len() == base_url@.len() + path@.len(),
        r@.take(r@.len() - path@.len()) + slashes == base_url@,
        r@.skip(r@.len() - path@.len()) == path@,
        forall|i: int| 0 <= i < slashes.len() ==> #[trigger] slashes[i] == '/',
        r@.len() > path@.len() ==> r@[r@.len() - path@.len() - 1] != '/',
{
    let slashes = only_slashes_are_dropped(base_url@);
    assert(r@.take(r@.len() - path@.len()) =~= without_slashes(base_url@));
    assert(r@.skip(r@.len() - path@.len()) =~= path@);
    slashes
}

/// Whatever `http_outcome` returns: an error exactly if the answer is no success,
/// with the status and the body as they are where they hold no secret, and never
/// with the secret.
pub proof fn failed_answers_are_errors(
    success: bool,
    status: &str,
    body: &str,
    secret: &str,
    r: Result<(), ProviderError>,
)
    requires
        call_ensures(http_outcome, (success, status, body, secret), r),
    ensures
        r is Ok <==> success,
        r matches Err(error) ==> error is RequestFailed && {
            let text = error->RequestFailed_0@;
            &&& secret@.len() == 0 || !occurs(secret@, "HTTP "@ + status@ + ": "@ + body@) ==> text
                == "HTTP "@ + status@ + ": "@ + body@
            &&& secret@.len() > 0 && clear_of(secret@, "[redacted]"@) ==> !occurs(secret@, text)
        },
{
    let message = "HTTP "@ + status@ + ": "@ + body@;
    if secret@.len() == 0 || !occurs(secret@, message) {
        messages_without_the_secret_stay(message, secret@);
    }
    if secret@.len() > 0 && clear_of(secret@, "[redacted]"@) {
        redaction_hides_the_secret(message, secret@);
    }
}

/// Whatever `redirect_step` returns: a redirect is followed only to the origin
/// that the key was sent to, and at most ten are followed.
pub proof fn redirects_keep_the_origin(
    followed: usize,
    previous: &Origin,
    next: &Origin,
    r: RedirectStep,
    first: RedirectStep,
    same: bool,
)
    requires
        call_ensures(redirect_step, (followed, Some(previous), next), r),
        call_ensures(redirect_step, (followed, None, next), first),
        call_ensures(same_origin, (previous, next), same),
    ensures
        r == RedirectStep::Follow <==> same && followed <= 10,
        r == RedirectStep::TooMany <==> followed > 10,
        first == RedirectStep::Follow <==> followed <= 10,
        first == RedirectStep::TooMany <==> followed > 10,
        same <==> {
            &&& previous.scheme@ == next.scheme@
            &&& previous.port == next.port
            &&& previous.host is Some <==> next.host is Some
            &&& previous.host is Some && next.host is Some ==> previous.host->Some_0@
                == next.host->Some_0@
        },
{
}

} // verus!
