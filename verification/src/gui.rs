//! The state of the VenturiCards window, shared by both rendering backends.

use vstd::prelude::*;
use crate::ast::{Expr, VtFile};
use crate::text::{concat, str_eq, usize_to_decimal};

verus! {

/// The contact shown on the card.
#[derive(Clone, Debug)]
pub struct ContactCard {
    pub name: String,
    pub role: String,
    pub email: String,
    pub tags: String,
}

impl Default for ContactCard {
    /// The sample contact.
    fn default() -> (r: ContactCard)
        ensures
            r.name@ == "Alice Chen"@,
            r.role@ == "Software Engineer"@,
            r.email@ == "alice@venturi.dev"@,
            r.tags@ == "rust  systems  dags"@,
    {
        ContactCard {
            name: String::from_str("Alice Chen"),
            role: String::from_str("Software Engineer"),
            email: String::from_str("alice@venturi.dev"),
            tags: String::from_str("rust  systems  dags"),
        }
    }
}

/// The string default of an input, if it has one.
pub open spec fn str_default(d: crate::ast::InputDecl) -> Option<Seq<char>> {
    match d.default {
        Some(Expr::StrLit(v)) => Some(v@),
        _ => None,
    }
}

/// A card field after the inputs: the last input named `field` with a
/// string default gives its value; otherwise `start`.
pub open spec fn field_from_inputs(inputs: Seq<crate::ast::InputDecl>, field: Seq<char>, start: Seq<char>) -> Seq<char>
    decreases inputs.len(),
{
    if inputs.len() == 0 {
        start
    } else {
        let before = field_from_inputs(inputs.drop_last(), field, start);
        if inputs.last().name@ == field && str_default(inputs.last()) is Some {
            str_default(inputs.last())->0
        } else {
            before
        }
    }
}

impl ContactCard {
    /// The card a `data.vt` file describes: the sample contact, with each of
    /// `name`, `role`, `email` and `tags` taken from the string default of
    /// the input of that name.
    #[verifier::loop_isolation(false)]
    pub fn from_inputs(vt: &VtFile) -> (r: ContactCard)
        ensures
            r.name@ == field_from_inputs(vt.inputs@, "name"@, "Alice Chen"@),
            r.role@ == field_from_inputs(vt.inputs@, "role"@, "Software Engineer"@),
            r.email@ == field_from_inputs(vt.inputs@, "email"@, "alice@venturi.dev"@),
            r.tags@ == field_from_inputs(vt.inputs@, "tags"@, "rust  systems  dags"@),
    {
        let mut card = ContactCard::default();
        let mut i: usize = 0;
        proof {
            reveal_strlit("name");
            reveal_strlit("role");
            reveal_strlit("email");
            reveal_strlit("tags");
            assert("name"@ != "role"@) by { assert("name"@[0] != "role"@[0]); }
            assert("name"@ != "email"@) by { assert("name"@.len() != "email"@.len()); }
            assert("name"@ != "tags"@) by { assert("name"@[0] != "tags"@[0]); }
            assert("role"@ != "email"@) by { assert("role"@.len() != "email"@.len()); }
            assert("role"@ != "tags"@) by { assert("role"@[0] != "tags"@[0]); }
            assert("email"@ != "tags"@) by { assert("email"@.len() != "tags"@.len()); }
        }
        assert(vt.inputs@.subrange(0, 0) =~= Seq::<crate::ast::InputDecl>::empty());
        while i < vt.inputs.len()
            invariant
                i <= vt.inputs@.len(),
                card.name@ == field_from_inputs(vt.inputs@.subrange(0, i as int), "name"@, "Alice Chen"@),
                card.role@ == field_from_inputs(vt.inputs@.subrange(0, i as int), "role"@, "Software Engineer"@),
                card.email@ == field_from_inputs(vt.inputs@.subrange(0, i as int), "email"@, "alice@venturi.dev"@),
                card.tags@ == field_from_inputs(vt.inputs@.subrange(0, i as int), "tags"@, "rust  systems  dags"@),
            decreases vt.inputs.len() - i,
        {
            let input = &vt.inputs[i];
            proof {
                let next = vt.inputs@.subrange(0, i + 1);
                assert(next.drop_last() =~= vt.inputs@.subrange(0, i as int));
                assert(next.last() == *input);
            }
            if let Some(Expr::StrLit(v)) = &input.default {
                if str_eq(input.name.as_str(), "name") {
                    card.name = v.clone();
                } else if str_eq(input.name.as_str(), "role") {
                    card.role = v.clone();
                } else if str_eq(input.name.as_str(), "email") {
                    card.email = v.clone();
                } else if str_eq(input.name.as_str(), "tags") {
                    card.tags = v.clone();
                }
            }
            i = i + 1;
        }
        assert(vt.inputs@.subrange(0, vt.inputs@.len() as int) =~= vt.inputs@);
        card
    }
}

/// The rendering backend.
#[derive(PartialEq, Eq, Structural, Clone, Copy, Debug)]
pub enum Backend {
    Egui,
    Iced,
}

impl Backend {
    /// `egui` or `iced`; anything else is refused with a message.
    pub fn parse(s: &str) -> (r: Result<Backend, String>)
        ensures
            s@ == "egui"@ ==> r == Ok::<Backend, String>(Backend::Egui),
            s@ == "iced"@ ==> r == Ok::<Backend, String>(Backend::Iced),
            s@ != "egui"@ && s@ != "iced"@ ==> (r matches Err(m) && m@ == "unknown backend '"@ + s@ + "': choose egui or iced"@),
    {
        proof {
            reveal_strlit("egui");
            reveal_strlit("iced");
            assert("egui"@ != "iced"@) by { assert("egui"@[0] != "iced"@[0]); }
        }
        if str_eq(s, "egui") {
            Ok(Backend::Egui)
        } else if str_eq(s, "iced") {
            Ok(Backend::Iced)
        } else {
            let a = concat("unknown backend '", s);
            Err(concat(a.as_str(), "': choose egui or iced"))
        }
    }
}

impl std::str::FromStr for Backend {
    type Err = String;

    /// As `Backend::parse`.
    fn from_str(s: &str) -> (r: Result<Backend, String>)
        ensures
            s@ == "egui"@ ==> r == Ok::<Backend, String>(Backend::Egui),
            s@ == "iced"@ ==> r == Ok::<Backend, String>(Backend::Iced),
            s@ != "egui"@ && s@ != "iced"@ ==> (r matches Err(m) && m@ == "unknown backend '"@ + s@ + "': choose egui or iced"@),
    {
        Backend::parse(s)
    }
}

/// The buttons of the window.
#[derive(PartialEq, Eq, Structural, Clone, Copy, Debug)]
pub enum Message {
    New,
    Edit,
    Share,
    Search,
}

/// `Contact i of n`.
pub open spec fn status_spec(index: nat, total: nat) -> Seq<char> {
    "Contact "@ + crate::text::decimal(index) + " of "@ + crate::text::decimal(total)
}

fn status_line(index: usize, total: usize) -> (r: String)
    ensures
        r@ == status_spec(index as nat, total as nat),
{
    let a = concat("Contact ", usize_to_decimal(index).as_str());
    let b = concat(a.as_str(), " of ");
    concat(b.as_str(), usize_to_decimal(total).as_str())
}

/// The window's state under iced: the card, showing contact 1 of 3.
pub struct VenturiCardsIced {
    card: ContactCard,
    contact_index: usize,
    total_contacts: usize,
}

impl VenturiCardsIced {
    pub fn new(card: ContactCard) -> (r: VenturiCardsIced)
        ensures
            r.card_spec() == card,
            r.position() == (1nat, 3nat),
    {
        VenturiCardsIced { card, contact_index: 1, total_contacts: 3 }
    }

    pub closed spec fn card_spec(&self) -> ContactCard {
        self.card
    }

    pub closed spec fn position(&self) -> (nat, nat) {
        (self.contact_index as nat, self.total_contacts as nat)
    }

    pub fn card(&self) -> (r: &ContactCard)
        ensures
            *r == self.card_spec(),
    {
        &self.card
    }

    /// The status line, `Contact 1 of 3`.
    pub fn status(&self) -> (r: String)
        ensures
            r@ == status_spec(self.position().0, self.position().1),
    {
        status_line(self.contact_index, self.total_contacts)
    }
}

/// The window's state under egui: the card, showing contact 1 of 3.
pub struct VenturiCardsEgui {
    card: ContactCard,
    contact_index: usize,
    total_contacts: usize,
}

impl VenturiCardsEgui {
    pub fn new(card: ContactCard) -> (r: VenturiCardsEgui)
        ensures
            r.card_spec() == card,
            r.position() == (1nat, 3nat),
    {
        VenturiCardsEgui { card, contact_index: 1, total_contacts: 3 }
    }

    pub closed spec fn card_spec(&self) -> ContactCard {
        self.card
    }

    pub closed spec fn position(&self) -> (nat, nat) {
        (self.contact_index as nat, self.total_contacts as nat)
    }

    pub fn card(&self) -> (r: &ContactCard)
        ensures
            *r == self.card_spec(),
    {
        &self.card
    }

    /// The status line, `Contact 1 of 3`.
    pub fn status(&self) -> (r: String)
        ensures
            r@ == status_spec(self.position().0, self.position().1),
    {
        status_line(self.contact_index, self.total_contacts)
    }
}

} // verus!
