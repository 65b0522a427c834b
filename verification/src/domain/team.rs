//! Email addresses, team members, and the team.

use crate::error::ValidationError;
use crate::text::{
    chars_of, count_char, count_occurrences, lemma_count_char_nonempty, string_of, trim, trim_chars,
};
use vstd::prelude::*;

verus! {

/// Whether `s` has the shape of an email address: exactly one `@`, with
/// something before it and something after it.
pub open spec fn valid_email(s: Seq<char>) -> bool {
    &&& count_char(s, '@') == 1
    &&& s[0] != '@'
    &&& s.last() != '@'
}

/// What `Email::new` answers for `s`: the error of the first rule that the
/// trimmed `s` breaks, or nothing if it breaks none.
pub open spec fn email_error(s: Seq<char>) -> Option<ValidationError> {
    let t = trim(s);
    if count_char(t, '@') == 0 {
        Some(ValidationError::EmailMissingAt)
    } else if count_char(t, '@') > 1 {
        Some(ValidationError::EmailMultipleAt)
    } else if t[0] == '@' || t.last() == '@' {
        Some(ValidationError::EmailEmptyPart)
    } else {
        None
    }
}

/// An address is refused exactly when, trimmed, it is not valid.
pub proof fn lemma_email_error_iff_invalid(s: Seq<char>)
    ensures
        email_error(s) is None <==> valid_email(trim(s)),
{
}

/// An email address: a string that satisfies `valid_email`.
#[derive(Debug, PartialEq, Eq)]
pub struct Email(String);

impl View for Email {
    type V = Seq<char>;

    closed spec fn view(&self) -> Seq<char> {
        self.0@
    }
}

impl Clone for Email {
    fn clone(&self) -> (r: Self)
        ensures
            r@ == self@,
    {
        proof {
            use_type_invariant(self);
        }
        Email(self.0.clone())
    }
}

impl Email {
    #[verifier::type_invariant]
    spec fn well_formed(self) -> bool {
        valid_email(self.0@)
    }

    /// The address `email` without the white space around it, unless it
    /// breaks a rule for addresses.
    pub fn new(email: &str) -> (r: Result<Email, ValidationError>)
        ensures
            match r {
                Ok(e) => email_error(email@) is None && e@ == trim(email@),
                Err(e) => email_error(email@) == Some(e),
            },
    {
        let chars = chars_of(email);
        Email::from_chars(&chars)
    }

    /// As `new`, for an address given by its characters.
    pub fn from_chars(email: &Vec<char>) -> (r: Result<Email, ValidationError>)
        ensures
            match r {
                Ok(e) => email_error(email@) is None && e@ == trim(email@),
                Err(e) => email_error(email@) == Some(e),
            },
    {
        let trimmed = trim_chars(email);
        let ats = count_occurrences(&trimmed, '@');
        if ats == 0 {
            return Err(ValidationError::EmailMissingAt);
        }
        if ats > 1 {
            return Err(ValidationError::EmailMultipleAt);
        }
        proof {
            lemma_count_char_nonempty(trimmed@, '@');
        }
        if trimmed[0] == '@' || trimmed[trimmed.len() - 1] == '@' {
            return Err(ValidationError::EmailEmptyPart);
        }
        Ok(Email(string_of(&trimmed)))
    }

    /// The address as a string, which is always a valid address.
    pub fn as_str(&self) -> (r: &str)
        ensures
            r@ == self@,
            valid_email(r@),
    {
        proof {
            use_type_invariant(self);
        }
        self.0.as_str()
    }

    /// The address as an owned string.
    pub fn to_string(&self) -> (r: String)
        ensures
            r@ == self@,
    {
        self.0.clone()
    }
}

/// The mathematical value of a team member.
pub struct MemberView {
    pub name: Seq<char>,
    pub email: Seq<char>,
    pub role: Option<Seq<char>>,
}

/// A member of the team.
#[derive(Debug, PartialEq, Eq)]
pub struct TeamMember {
    pub name: String,
    pub email: Email,
    pub role: Option<String>,
}

impl View for TeamMember {
    type V = MemberView;

    open spec fn view(&self) -> MemberView {
        MemberView {
            name: self.name@,
            email: self.email@,
            role: match self.role {
                Some(r) => Some(r@),
                None => None,
            },
        }
    }
}

impl Clone for TeamMember {
    fn clone(&self) -> (r: Self)
        ensures
            r@ == self@,
    {
        let role = match &self.role {
            Some(r) => Some(r.clone()),
            None => None,
        };
        TeamMember { name: self.name.clone(), email: self.email.clone(), role }
    }
}

impl TeamMember {
    /// A member without a role.
    pub fn new(name: String, email: Email) -> (r: TeamMember)
        ensures
            r@ == (MemberView { name: name@, email: email@, role: None }),
    {
        TeamMember { name, email, role: None }
    }

    /// The same member with the role `role`.
    pub fn with_role(self, role: String) -> (r: TeamMember)
        ensures
            r@ == (MemberView { role: Some(role@), ..self@ }),
    {
        TeamMember { name: self.name, email: self.email, role: Some(role) }
    }

    /// Gives the member the role `role`.
    pub fn set_role(&mut self, role: String)
        ensures
            final(self)@ == (MemberView { role: Some(role@), ..old(self)@ }),
    {
        self.role = Some(role);
    }
}

/// The values of a sequence of members.
pub open spec fn member_views(s: Seq<TeamMember>) -> Seq<MemberView> {
    Seq::new(s.len(), |i: int| s[i]@)
}

/// The index of the first member named `name`, or the number of members if
/// there is none.
pub open spec fn index_by_name(team: Seq<MemberView>, name: Seq<char>) -> int
    decreases team.len(),
{
    if team.len() == 0 || team[0].name == name {
        0
    } else {
        1 + index_by_name(team.skip(1), name)
    }
}

/// The index of the first member whose address is `email`, or the number of
/// members if there is none.
pub open spec fn index_by_email(team: Seq<MemberView>, email: Seq<char>) -> int
    decreases team.len(),
{
    if team.len() == 0 || team[0].email == email {
        0
    } else {
        1 + index_by_email(team.skip(1), email)
    }
}

/// `index_by_name` lies within the team, finds the name, and no member
/// before it has the name.
pub proof fn lemma_index_by_name(team: Seq<MemberView>, name: Seq<char>)
    ensures
        0 <= index_by_name(team, name) <= team.len(),
        index_by_name(team, name) < team.len() ==> team[index_by_name(team, name)].name == name,
        forall|j: int| 0 <= j < index_by_name(team, name) ==> team[j].name != name,
    decreases team.len(),
{
    if team.len() == 0 || team[0].name == name {
    } else {
        lemma_index_by_name(team.skip(1), name);
        assert forall|j: int| 0 <= j < index_by_name(team, name) implies team[j].name != name by {
            if j > 0 {
                assert(team.skip(1)[j - 1] == team[j]);
            }
        }
    }
}

/// `index_by_email` lies within the team, finds the address, and no member
/// before it has the address.
pub proof fn lemma_index_by_email(team: Seq<MemberView>, email: Seq<char>)
    ensures
        0 <= index_by_email(team, email) <= team.len(),
        index_by_email(team, email) < team.len() ==> team[index_by_email(team, email)].email
            == email,
        forall|j: int| 0 <= j < index_by_email(team, email) ==> team[j].email != email,
    decreases team.len(),
{
    if team.len() == 0 || team[0].email == email {
    } else {
        lemma_index_by_email(team.skip(1), email);
        assert forall|j: int| 0 <= j < index_by_email(team, email) implies team[j].email
            != email by {
            if j > 0 {
                assert(team.skip(1)[j - 1] == team[j]);
            }
        }
    }
}

/// The members of a project, in the order in which they were added. The
/// first member is the one to whom tasks are assigned by default.
#[derive(Debug)]
pub struct Team {
    members: Vec<TeamMember>,
}

impl View for Team {
    type V = Seq<MemberView>;

    closed spec fn view(&self) -> Seq<MemberView> {
        member_views(self.members@)
    }
}

impl Clone for Team {
    fn clone(&self) -> (r: Self)
        ensures
            r@ == self@,
    {
        let mut members: Vec<TeamMember> = Vec::new();
        let mut i: usize = 0;
        while i < self.members.len()
            invariant
                i <= self.members.len(),
                member_views(members@) == member_views(self.members@).take(i as int),
            decreases self.members.len() - i,
        {
            let ghost before = member_views(members@);
            members.push(self.members[i].clone());
            assert(member_views(members@) == before.push(self.members[i as int]@));
            i += 1;
        }
        assert(member_views(self.members@).take(i as int) == member_views(self.members@));
        Team { members }
    }
}

impl Team {
    /// The team of the given members.
    pub fn new(members: Vec<TeamMember>) -> (r: Team)
        ensures
            r@ == member_views(members@),
    {
        Team { members }
    }

    /// The team without members.
    pub fn empty() -> (r: Team)
        ensures
            r@ == Seq::<MemberView>::empty(),
    {
        let r = Team { members: Vec::new() };
        assert(r@ == Seq::<MemberView>::empty());
        r
    }

    /// The members, in order.
    pub fn members(&self) -> (r: &[TeamMember])
        ensures
            member_views(r@) == self@,
    {
        self.members.as_slice()
    }

    /// Adds a member at the end.
    pub fn add_member(&mut self, member: TeamMember)
        ensures
            final(self)@ == old(self)@.push(member@),
    {
        self.members.push(member);
        assert(self@ == old(self)@.push(member@));
    }

    /// The member to whom tasks are assigned by default: the first one.
    pub fn default_assignee(&self) -> (r: Option<&TeamMember>)
        ensures
            match r {
                Some(m) => self@.len() > 0 && m@ == self@[0],
                None => self@.len() == 0,
            },
    {
        if self.members.len() == 0 {
            None
        } else {
            Some(&self.members[0])
        }
    }

    /// The first member named `name`.
    pub fn find_by_name(&self, name: &str) -> (r: Option<&TeamMember>)
        ensures
            match r {
                Some(m) => index_by_name(self@, name@) < self@.len() && m@ == self@[index_by_name(
                    self@,
                    name@,
                )],
                None => index_by_name(self@, name@) == self@.len(),
            },
    {
        let ghost team = self@;
        let mut i: usize = 0;
        assert(team.skip(0) == team);
        while i < self.members.len()
            invariant
                team == self@,
                i <= self.members.len(),
                index_by_name(team, name@) == i + index_by_name(team.skip(i as int), name@),
            decreases self.members.len() - i,
        {
            assert(team.skip(i as int)[0] == self.members[i as int]@);
            if crate::text::str_eq(self.members[i].name.as_str(), name) {
                return Some(&self.members[i]);
            }
            assert(team.skip(i as int).skip(1) == team.skip(i + 1));
            i += 1;
        }
        None
    }

    /// The first member whose address is `email`.
    pub fn find_by_email(&self, email: &str) -> (r: Option<&TeamMember>)
        ensures
            match r {
                Some(m) => index_by_email(self@, email@) < self@.len() && m@
                    == self@[index_by_email(self@, email@)],
                None => index_by_email(self@, email@) == self@.len(),
            },
    {
        let ghost team = self@;
        let mut i: usize = 0;
        assert(team.skip(0) == team);
        while i < self.members.len()
            invariant
                team == self@,
                i <= self.members.len(),
                index_by_email(team, email@) == i + index_by_email(team.skip(i as int), email@),
            decreases self.members.len() - i,
        {
            assert(team.skip(i as int)[0] == self.members[i as int]@);
            if crate::text::str_eq(self.members[i].email.as_str(), email) {
                return Some(&self.members[i]);
            }
            assert(team.skip(i as int).skip(1) == team.skip(i + 1));
            i += 1;
        }
        None
    }

    /// Whether the team has no member.
    pub fn is_empty(&self) -> (r: bool)
        ensures
            r == (self@.len() == 0),
    {
        self.members.len() == 0
    }

    /// The number of members.
    pub fn len(&self) -> (r: usize)
        ensures
            r == self@.len(),
    {
        self.members.len()
    }
}

} // verus!
