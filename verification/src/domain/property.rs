//! Properties of tasks and their validated keys.

use crate::error::ValidationError;
use crate::text::{
    char_is_uppercase, chars_of, count_words, is_uppercase, lemma_word_count_bound, word_count,
};
use vstd::prelude::*;
use vstd::string::StringExecFns;

verus! {

/// Whether `s` may serve as a property key: it begins with an uppercase
/// letter and has one, two or three words.
pub open spec fn valid_key(s: Seq<char>) -> bool {
    &&& s.len() > 0
    &&& is_uppercase(s[0])
    &&& 1 <= word_count(s) <= 3
}

/// What `PropertyKey::new` answers for `s`: the error of the first rule that
/// `s` breaks, or nothing if it breaks none. A key without a word is
/// empty; a key with words must begin with an uppercase letter, and have no
/// more than three of them.
pub open spec fn key_error(s: Seq<char>) -> Option<ValidationError> {
    if word_count(s) == 0 {
        Some(ValidationError::KeyEmpty)
    } else if s.len() == 0 || !is_uppercase(s[0]) {
        Some(ValidationError::KeyNotCapitalized)
    } else if word_count(s) > 3 {
        Some(ValidationError::KeyTooManyWords)
    } else {
        None
    }
}

/// A key is refused exactly when it is not valid.
pub proof fn lemma_key_error_iff_invalid(s: Seq<char>)
    ensures
        key_error(s) is None <==> valid_key(s),
{
    lemma_word_count_bound(s);
}

/// The name of a property: a string that satisfies `valid_key`.
#[derive(Debug, PartialEq, Eq, Hash)]
pub struct PropertyKey(String);

impl View for PropertyKey {
    type V = Seq<char>;

    closed spec fn view(&self) -> Seq<char> {
        self.0@
    }
}

impl Clone for PropertyKey {
    fn clone(&self) -> (r: Self)
        ensures
            r@ == self@,
    {
        proof {
            use_type_invariant(self);
        }
        PropertyKey(self.0.clone())
    }
}

impl PropertyKey {
    #[verifier::type_invariant]
    spec fn well_formed(self) -> bool {
        valid_key(self.0@)
    }

    /// The key `key`, unless it breaks a rule for keys.
    pub fn new(key: &str) -> (r: Result<PropertyKey, ValidationError>)
        ensures
            match r {
                Ok(k) => key_error(key@) is None && k@ == key@,
                Err(e) => key_error(key@) == Some(e),
            },
    {
        let chars = chars_of(key);
        let words = count_words(&chars);
        if words == 0 {
            return Err(ValidationError::KeyEmpty);
        }
        proof {
            lemma_word_count_bound(chars@);
        }
        if !char_is_uppercase(chars[0]) {
            return Err(ValidationError::KeyNotCapitalized);
        }
        if words > 3 {
            return Err(ValidationError::KeyTooManyWords);
        }
        Ok(PropertyKey(String::from_str(key)))
    }

    /// The key `key`, or nothing if it breaks a rule for keys.
    pub fn try_parse(key: &str) -> (r: Option<PropertyKey>)
        ensures
            match r {
                Some(k) => valid_key(key@) && k@ == key@,
                None => !valid_key(key@),
            },
    {
        proof {
            lemma_key_error_iff_invalid(key@);
        }
        match PropertyKey::new(key) {
            Ok(k) => Some(k),
            Err(_) => None,
        }
    }

    /// The key as a string, which is always a valid key.
    pub fn as_str(&self) -> (r: &str)
        ensures
            r@ == self@,
            valid_key(r@),
    {
        proof {
            use_type_invariant(self);
        }
        self.0.as_str()
    }

    /// The key as an owned string.
    pub fn to_string(&self) -> (r: String)
        ensures
            r@ == self@,
    {
        self.0.clone()
    }

    /// Whether two keys are the same key.
    pub fn same(&self, other: &PropertyKey) -> (r: bool)
        ensures
            r == (self@ == other@),
    {
        self.0 == other.0
    }

    /// The key `Status`.
    pub fn status() -> (r: PropertyKey)
        ensures
            r@ == "Status"@,
    {
        proof {
            reveal_strlit("Status");
            lemma_one_word("Status"@);
        }
        PropertyKey(String::from_str("Status"))
    }

    /// The key `Assigned To`.
    pub fn assigned_to() -> (r: PropertyKey)
        ensures
            r@ == "Assigned To"@,
    {
        proof {
            reveal_strlit("Assigned To");
            let s = "Assigned To"@;
            assert(s.take(8) =~= seq!['A', 's', 's', 'i', 'g', 'n', 'e', 'd']);
            lemma_one_word(s.take(8));
            assert(s.take(9).drop_last() == s.take(8));
            assert(s.take(10).drop_last() == s.take(9));
            assert(s.take(11).drop_last() == s.take(10));
            assert(s.take(11) == s);
            assert(word_count(s.take(9)) == 1);
            assert(word_count(s.take(10)) == 2);
            assert(word_count(s) == 2);
        }
        PropertyKey(String::from_str("Assigned To"))
    }

    /// The key `Tags`.
    pub fn tags() -> (r: PropertyKey)
        ensures
            r@ == "Tags"@,
    {
        proof {
            reveal_strlit("Tags");
            lemma_one_word("Tags"@);
        }
        PropertyKey(String::from_str("Tags"))
    }

    /// The key `Priority`.
    pub fn priority() -> (r: PropertyKey)
        ensures
            r@ == "Priority"@,
    {
        proof {
            reveal_strlit("Priority");
            lemma_one_word("Priority"@);
        }
        PropertyKey(String::from_str("Priority"))
    }

    /// The key `Due Date`.
    pub fn due_date() -> (r: PropertyKey)
        ensures
            r@ == "Due Date"@,
    {
        proof {
            reveal_strlit("Due Date");
            let s = "Due Date"@;
            assert(s.take(3) =~= seq!['D', 'u', 'e']);
            lemma_one_word(s.take(3));
            assert(s.take(4).drop_last() == s.take(3));
            assert(s.take(5).drop_last() == s.take(4));
            assert(s.take(6).drop_last() == s.take(5));
            assert(s.take(7).drop_last() == s.take(6));
            assert(s.take(8).drop_last() == s.take(7));
            assert(s.take(8) == s);
            assert(word_count(s.take(4)) == 1);
            assert(word_count(s.take(5)) == 2);
            assert(word_count(s.take(6)) == 2);
            assert(word_count(s.take(7)) == 2);
        }
        PropertyKey(String::from_str("Due Date"))
    }
}

/// A text without white space, and not empty, is one word.
pub proof fn lemma_one_word(s: Seq<char>)
    requires
        s.len() > 0,
        forall|i: int| 0 <= i < s.len() ==> !crate::text::is_whitespace(#[trigger] s[i]),
    ensures
        word_count(s) == 1,
    decreases s.len(),
{
    assert(!crate::text::is_whitespace(s[s.len() - 1]));
    if s.len() == 1 {
        assert(word_count(s.drop_last()) == 0);
    } else {
        assert forall|i: int| 0 <= i < s.drop_last().len() implies !crate::text::is_whitespace(
            #[trigger] s.drop_last()[i],
        ) by {
            assert(s.drop_last()[i] == s[i]);
        }
        lemma_one_word(s.drop_last());
        assert(!crate::text::is_whitespace(s[s.len() - 2]));
    }
}

/// The mathematical value of a property.
pub struct PropertyView {
    pub key: Seq<char>,
    pub value: Seq<char>,
}

/// A named value attached to a task.
#[derive(Debug, PartialEq, Eq)]
pub struct Property {
    pub key: PropertyKey,
    pub value: String,
}

impl View for Property {
    type V = PropertyView;

    open spec fn view(&self) -> PropertyView {
        PropertyView { key: self.key@, value: self.value@ }
    }
}

impl Clone for Property {
    fn clone(&self) -> (r: Self)
        ensures
            r@ == self@,
    {
        Property { key: self.key.clone(), value: self.value.clone() }
    }
}

impl Property {
    /// The property that gives `key` the value `value`.
    pub fn new(key: PropertyKey, value: String) -> (r: Property)
        ensures
            r@ == (PropertyView { key: key@, value: value@ }),
            r.key == key,
            r.value == value,
    {
        Property { key, value }
    }
}

} // verus!
