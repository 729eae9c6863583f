//! How encrypted stores are opened.
use vstd::prelude::*;
use crate::text::chars_of;
use crate::CoreError;

verus! {

/// A text with its single quotes doubled.
pub open spec fn quoted(s: Seq<char>) -> Seq<char>
    decreases s.len(),
{
    if s.len() == 0 {
        Seq::empty()
    } else if s[0] == '\'' {
        seq!['\'', '\''] + quoted(s.skip(1))
    } else {
        seq![s[0]] + quoted(s.skip(1))
    }
}

/// The statement that hands a store its key.
pub open spec fn key_statement_of(key: Seq<char>) -> Seq<char> {
    "PRAGMA key = '"@ + quoted(key) + "';"@
}

/// Why a store on disk is not opened without a key.
pub open spec fn refusal(store: Seq<char>) -> Seq<char> {
    "refusing to create unencrypted "@ + store + ": key required (strict mode)"@
}

/// What to tell a store before it is used: nothing to one in memory without a key, the key to any
/// other. A store on disk is refused without a key. `store` is what the store is called in the
/// refusal.
pub fn key_statement(store: &str, in_memory: bool, key: Option<&str>) -> (r: Result<
    Option<String>,
    CoreError,
>)
    ensures
        match r {
            Ok(None) => in_memory && key is None,
            Ok(Some(s)) => key matches Some(k) && s@ == key_statement_of(k@),
            Err(e) => !in_memory && key is None && e is Db && e.text() == refusal(store@),
        },
{
    match key {
        None => if in_memory {
            Ok(None)
        } else {
            let mut text = "refusing to create unencrypted ".to_owned();
            text.append(store);
            text.append(": key required (strict mode)");
            Err(CoreError::Db(text))
        },
        Some(k) => {
            let v = chars_of(k);
            let mut s = "PRAGMA key = '".to_owned();
            let ghost head = s@;
            let mut i: usize = 0;
            assert(v@.skip(0) =~= v@);
            while i < v.len()
                invariant
                    i <= v@.len(),
                    s@ + quoted(v@.skip(i as int)) == head + quoted(v@),
                decreases v@.len() - i,
            {
                let c: char = v[i];
                let ghost before = s@;
                let ghost rest = v@.skip(i as int);
                s.push(c);
                if c == '\'' {
                    s.push(c);
                }
                proof {
                    assert(rest.skip(1) =~= v@.skip(i + 1));
                    assert(s@ + quoted(v@.skip(i + 1)) =~= before + quoted(rest));
                }
                i = i + 1;
            }
            assert(s@ =~= head + quoted(v@));
            s.append("';");
            Ok(Some(s))
        },
    }
}

/// What a quoted text stands for, up to the quote that ends it, and what follows that quote. Two
/// quotes stand for one.
pub open spec fn read_quoted(s: Seq<char>) -> Option<(Seq<char>, Seq<char>)>
    decreases s.len(),
{
    if s.len() == 0 {
        None
    } else if s[0] != '\'' {
        match read_quoted(s.skip(1)) {
            Some((text, rest)) => Some((seq![s[0]] + text, rest)),
            None => None,
        }
    } else if s.len() > 1 && s[1] == '\'' {
        match read_quoted(s.skip(2)) {
            Some((text, rest)) => Some((seq!['\''] + text, rest)),
            None => None,
        }
    } else {
        Some((Seq::empty(), s.skip(1)))
    }
}

/// Whatever a key holds, the store takes it as it stands: the quoted text ends where the key ends,
/// and nothing of the key is read as part of the statement.
pub proof fn law_key_is_taken_as_it_stands(key: Seq<char>, rest: Seq<char>)
    requires
        rest.len() == 0 || rest[0] != '\'',
    ensures
        read_quoted(quoted(key) + seq!['\''] + rest) == Some((key, rest)),
    decreases key.len(),
{
    let s = quoted(key) + seq!['\''] + rest;
    if key.len() == 0 {
        assert(s[0] == '\'');
        assert(s.len() > 1 ==> s[1] == rest[0]);
        assert(s.skip(1) =~= rest);
        assert(key =~= Seq::empty());
    } else {
        let tail = key.skip(1);
        let t = quoted(tail) + seq!['\''] + rest;
        law_key_is_taken_as_it_stands(tail, rest);
        if key[0] == '\'' {
            assert(s =~= seq!['\'', '\''] + t);
            assert(s.skip(2) =~= t);
            assert(seq!['\''] + tail =~= key);
        } else {
            assert(s =~= seq![key[0]] + t);
            assert(s.skip(1) =~= t);
            assert(seq![key[0]] + tail =~= key);
        }
    }
}

/// Quoting works character by character: a quote becomes two, everything else stays.
pub proof fn law_only_quotes_are_doubled(a: Seq<char>, b: Seq<char>, c: char)
    ensures
        quoted(a + b) == quoted(a) + quoted(b),
        c != '\'' ==> quoted(seq![c]) == seq![c],
        quoted(seq!['\'']) == seq!['\'', '\''],
        quoted(Seq::empty()) == Seq::<char>::empty(),
    decreases a.len(),
{
    reveal_with_fuel(quoted, 2);
    assert(seq![c].skip(1) =~= Seq::<char>::empty());
    assert(seq!['\''].skip(1) =~= Seq::<char>::empty());
    assert(quoted(Seq::<char>::empty()) == Seq::<char>::empty());
    assert(seq![c] + Seq::<char>::empty() =~= seq![c]);
    assert(seq!['\'', '\''] + Seq::<char>::empty() =~= seq!['\'', '\'']);
    if a.len() > 0 {
        law_only_quotes_are_doubled(a.skip(1), b, c);
        assert((a + b).skip(1) =~= a.skip(1) + b);
        assert(quoted(a + b) =~= quoted(a) + quoted(b));
    } else {
        assert(a + b =~= b);
        assert(quoted(a) + quoted(b) =~= quoted(b));
    }
}

/// The statement that hands over a key holds that key, quoted, and ends behind it.
pub proof fn law_statement_hands_over_the_key(key: Seq<char>)
    ensures
        key_statement_of(key).take(14) == "PRAGMA key = '"@,
        read_quoted(key_statement_of(key).skip(14)) == Some((key, seq![';'])),
{
    reveal_strlit("PRAGMA key = '");
    reveal_strlit("';");
    let all = key_statement_of(key);
    assert(all.take(14) =~= "PRAGMA key = '"@);
    assert("';"@ =~= seq!['\''] + seq![';']);
    assert(all.skip(14) =~= quoted(key) + seq!['\''] + seq![';']);
    law_key_is_taken_as_it_stands(key, seq![';']);
}

/// A refusal names the store.
pub proof fn law_refusal_names_the_store(a: Seq<char>)
    ensures
        refusal(a).subrange(31, 31 + a.len() as int) == a,
{
    reveal_strlit("refusing to create unencrypted ");
    assert(refusal(a).subrange(31, 31 + a.len() as int) =~= a);
}

} // verus!
