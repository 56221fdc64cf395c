use vstd::prelude::*;

verus! {

/// Whether `c` has the Unicode white-space property: the set that the text
/// splitters and the natural line breaker treat as word separators.
pub open spec fn is_ws(c: char) -> bool {
    ||| c == '\u{0009}'
    ||| c == '\u{000A}'
    ||| c == '\u{000B}'
    ||| c == '\u{000C}'
    ||| c == '\u{000D}'
    ||| c == '\u{0020}'
    ||| c == '\u{0085}'
    ||| c == '\u{00A0}'
    ||| c == '\u{1680}'
    ||| '\u{2000}' <= c <= '\u{200A}'
    ||| c == '\u{2028}'
    ||| c == '\u{2029}'
    ||| c == '\u{202F}'
    ||| c == '\u{205F}'
    ||| c == '\u{3000}'
}

/// Decide whether `c` is white space, as `is_ws` defines it.
pub fn is_whitespace_char(c: char) -> (r: bool)
    ensures
        r == is_ws(c),
{
    c == '\u{0009}' || c == '\u{000A}' || c == '\u{000B}' || c == '\u{000C}' || c == '\u{000D}'
        || c == '\u{0020}' || c == '\u{0085}' || c == '\u{00A0}' || c == '\u{1680}' || ('\u{2000}'
        <= c && c <= '\u{200A}') || c == '\u{2028}' || c == '\u{2029}' || c == '\u{202F}' || c
        == '\u{205F}' || c == '\u{3000}'
}

/// The text preprocessing every layout call applies to a chunk: each tab
/// becomes four spaces, and both `\r\n` and a lone `\r` become `\n`.
pub open spec fn normalize(s: Seq<char>) -> Seq<char>
    decreases s.len(),
{
    if s.len() == 0 {
        Seq::empty()
    } else if s[0] == '\t' {
        seq![' ', ' ', ' ', ' '] + normalize(s.skip(1))
    } else if s[0] == '\r' {
        if s.len() >= 2 && s[1] == '\n' {
            seq!['\n'] + normalize(s.skip(2))
        } else {
            seq!['\n'] + normalize(s.skip(1))
        }
    } else {
        seq![s[0]] + normalize(s.skip(1))
    }
}

/// A normalized text holds no tab and no carriage return.
pub proof fn lemma_normalize_clean(s: Seq<char>)
    ensures
        forall|i: int| 0 <= i < normalize(s).len() ==> #[trigger] normalize(s)[i] != '\t'
            && normalize(s)[i] != '\r',
    decreases s.len(),
{
    if s.len() != 0 {
        if s[0] == '\t' {
            lemma_normalize_clean(s.skip(1));
            assert forall|i: int| 0 <= i < normalize(s).len() implies #[trigger] normalize(s)[i]
                != '\t' && normalize(s)[i] != '\r' by {
                if i >= 4 {
                    assert(normalize(s)[i] == normalize(s.skip(1))[i - 4]);
                }
            }
        } else if s[0] == '\r' {
            if s.len() >= 2 && s[1] == '\n' {
                lemma_normalize_clean(s.skip(2));
                assert forall|i: int| 0 <= i < normalize(s).len() implies #[trigger] normalize(
                    s,
                )[i] != '\t' && normalize(s)[i] != '\r' by {
                    if i >= 1 {
                        assert(normalize(s)[i] == normalize(s.skip(2))[i - 1]);
                    }
                }
            } else {
                lemma_normalize_clean(s.skip(1));
                assert forall|i: int| 0 <= i < normalize(s).len() implies #[trigger] normalize(
                    s,
                )[i] != '\t' && normalize(s)[i] != '\r' by {
                    if i >= 1 {
                        assert(normalize(s)[i] == normalize(s.skip(1))[i - 1]);
                    }
                }
            }
        } else {
            lemma_normalize_clean(s.skip(1));
            assert forall|i: int| 0 <= i < normalize(s).len() implies #[trigger] normalize(s)[i]
                != '\t' && normalize(s)[i] != '\r' by {
                if i >= 1 {
                    assert(normalize(s)[i] == normalize(s.skip(1))[i - 1]);
                }
            }
        }
    }
}

/// Normalizing is idempotent: a second pass over a normalized text changes
/// nothing, because the first pass left no tab and no carriage return.
pub proof fn lemma_normalize_idempotent(s: Seq<char>)
    ensures
        normalize(normalize(s)) == normalize(s),
{
    lemma_normalize_clean(s);
    lemma_normalize_identity(normalize(s));
}

/// Normalizing a text without tabs and carriage returns is the identity.
pub proof fn lemma_normalize_identity(s: Seq<char>)
    requires
        forall|i: int| 0 <= i < s.len() ==> #[trigger] s[i] != '\t' && s[i] != '\r',
    ensures
        normalize(s) == s,
    decreases s.len(),
{
    if s.len() == 0 {
        assert(normalize(s) =~= s);
    } else {
        assert(forall|i: int| 0 <= i < s.skip(1).len() ==> #[trigger] s.skip(1)[i] != '\t'
            && s.skip(1)[i] != '\r');
        lemma_normalize_identity(s.skip(1));
        assert(normalize(s) =~= s);
    }
}

/// Collect the characters of a string into a vector.
/// Relies on `str::chars`: the iterator yields exactly the characters of
/// the string, in order.
#[verifier::external_body]
pub fn str_chars(s: &str) -> (v: Vec<char>)
    ensures
        v@ == s@,
{
    s.chars().collect()
}

/// Build a string from a vector of characters.
/// Relies on `String::from_iter`: the built string holds exactly the
/// characters handed in, in order.
#[verifier::external_body]
pub fn chars_to_string(v: &Vec<char>) -> (s: String)
    ensures
        s@ == v@,
{
    v.iter().collect()
}

/// Normalize a chunk of text: expand tabs to four spaces and turn both
/// `\r\n` and a lone `\r` into `\n`.
pub fn normalize_text(s: &str) -> (v: Vec<char>)
    ensures
        v@ == normalize(s@),
{
    let cs = str_chars(s);
    let ghost full = cs@;
    let mut out: Vec<char> = Vec::new();
    let mut i: usize = 0;
    proof {
        assert(full.skip(0) =~= full);
        assert(out@ + normalize(full) =~= normalize(full));
    }
    while i < cs.len()
        invariant
            cs@ == full,
            0 <= i <= full.len(),
            out@ + normalize(full.skip(i as int)) == normalize(full),
        decreases full.len() - i,
    {
        let ghost rest = full.skip(i as int);
        proof {
            assert(rest[0] == full[i as int]);
        }
        let c = cs[i];
        if c == '\t' {
            out.push(' ');
            out.push(' ');
            out.push(' ');
            out.push(' ');
            proof {
                assert(rest.skip(1) =~= full.skip(i + 1));
                assert(out@ + normalize(full.skip(i + 1)) =~= normalize(full));
            }
            i = i + 1;
        } else if c == '\r' {
            out.push('\n');
            if i + 1 < cs.len() && cs[i + 1] == '\n' {
                proof {
                    assert(rest.len() >= 2 && rest[1] == full[i + 1]);
                    assert(rest.skip(2) =~= full.skip(i + 2));
                    assert(out@ + normalize(full.skip(i + 2)) =~= normalize(full));
                }
                i = i + 2;
            } else {
                proof {
                    assert(rest.len() >= 2 ==> rest[1] == full[i + 1]);
                    assert(rest.skip(1) =~= full.skip(i + 1));
                    assert(out@ + normalize(full.skip(i + 1)) =~= normalize(full));
                }
                i = i + 1;
            }
        } else {
            out.push(c);
            proof {
                assert(rest.skip(1) =~= full.skip(i + 1));
                assert(out@ + normalize(full.skip(i + 1)) =~= normalize(full));
            }
            i = i + 1;
        }
    }
    proof {
        assert(full.skip(full.len() as int) =~= Seq::<char>::empty());
        assert(out@ =~= normalize(full));
    }
    out
}

} // verus!
