//! `contacts.v1`: local names for full receiving addresses.
//!
//! A name is a convenience and no verification: the full address stays the
//! authority, and its short fingerprint is shown wherever the name is.
use crate::text::{
    chars_of, debug_of, hex_of, lines, pairs_bytes, push_dec, push_hex, split, split_once, str_eq,
    string_of, text_is, utf8_string,
};
#[allow(unused_imports)]
use crate::text::{
    debug_text, dec, hex_text, lacks, lemma_hex_lacks, lemma_lines_of_first, lemma_pairs_of_hex,
    lemma_parted, lemma_position, lemma_split_first, lemma_split_none, lines_of, pairs_text,
    parted_at, split_on, texts,
};
use vstd::prelude::*;
#[allow(unused_imports)]
use vstd::utf8::{decode_utf8, encode_utf8, valid_utf8};

verus! {

/// The file inside the wallet's directory.
pub const CONTACTS_FILE: &'static str = "contacts.v1";

/// The first line: the one that is written, and the only one that is read.
pub const CONTACTS_HEADER: &'static str = "qumbra-wallet contacts v1";

/// A valid address as it is written: in full, and as its short fingerprint.
#[derive(Clone, Debug, PartialEq, Eq)]
pub struct AddressForms {
    pub full: String,
    pub short: String,
}

/// A name and the address it stands for.
#[derive(Clone, Debug, PartialEq, Eq)]
pub struct Contact {
    pub name: String,
    /// The address in full, never the fingerprint.
    pub address: String,
    /// Its fingerprint.
    pub fingerprint: String,
}

/// Why the contact book is refused or not changed.
#[derive(Debug, PartialEq, Eq)]
#[allow(inconsistent_fields)]
pub enum ContactError {
    Io(String),
    BadHeader { path: String, got: String },
    BadRecord { path: String, line: usize, why: String },
    InvalidName { name: String, why: &'static str },
    InvalidAddress,
    DuplicateName(String),
    UnknownName(String),
}

impl ContactError {
    /// The sentence that a person is shown.
    pub open spec fn text(&self) -> Seq<char> {
        match self {
            ContactError::Io(e) => "contact book I/O: "@ + e@,
            ContactError::BadHeader { path, got } => "unreadable contact book "@ + path@ + ": header "@ + debug_text(got@) + "; this binary knows `qumbra-wallet contacts v1` only"@,
            ContactError::BadRecord { path, line, why } => "unreadable contact book "@ + path@ + " at line "@ + dec(*line as nat) + ": "@ + why@ + ". Refusing to read a file this binary only partly understands"@,
            ContactError::InvalidName { name, why } => "invalid contact name `"@ + name@ + "`: "@ + why@,
            ContactError::InvalidAddress => "contact address is not a valid full qaddr1… address (wrong HRP, checksum, version, or length refused)"@,
            ContactError::DuplicateName(name) => "contact name `"@ + name@ + "` already exists"@,
            ContactError::UnknownName(name) => "unknown contact `"@ + name@ + "`"@,
        }
    }

    /// The sentence that a person is shown.
    pub fn message(&self) -> (r: String)
        ensures
            r@ == self.text(),
    {
        let mut s: String = String::new();
        match self {
            ContactError::Io(e) => {
                s.append("contact book I/O: ");
                s.append(e.as_str());
            },
            ContactError::BadHeader { path, got } => {
                s.append("unreadable contact book ");
                s.append(path.as_str());
                s.append(": header ");
                { let q = debug_of(got.as_str()); s.append(q.as_str()); }
                s.append("; this binary knows `qumbra-wallet contacts v1` only");
            },
            ContactError::BadRecord { path, line, why } => {
                s.append("unreadable contact book ");
                s.append(path.as_str());
                s.append(" at line ");
                push_dec(&mut s, *line as u64);
                s.append(": ");
                s.append(why.as_str());
                s.append(". Refusing to read a file this binary only partly understands");
            },
            ContactError::InvalidName { name, why } => {
                s.append("invalid contact name `");
                s.append(name.as_str());
                s.append("`: ");
                s.append(why);
            },
            ContactError::InvalidAddress => {
                s.append("contact address is not a valid full qaddr1… address (wrong HRP, checksum, version, or length refused)");
            },
            ContactError::DuplicateName(name) => {
                s.append("contact name `");
                s.append(name.as_str());
                s.append("` already exists");
            },
            ContactError::UnknownName(name) => {
                s.append("unknown contact `");
                s.append(name.as_str());
                s.append("`");
            },
        }
        assert(s@ =~= self.text());
        s
    }
}

impl Contact {
    /// The address's short fingerprint.
    pub fn short(&self) -> (r: String)
        ensures
            r@ == self.fingerprint@,
    {
        self.fingerprint.clone()
    }
}

/// A [`Contact`] as a value.
#[verifier::ext_equal]
pub struct ContactModel {
    pub name: Seq<char>,
    pub address: Seq<char>,
    pub short: Seq<char>,
}

impl Contact {
    pub open spec fn view(&self) -> ContactModel {
        ContactModel { name: self.name@, address: self.address@, short: self.fingerprint@ }
    }
}

/// Contacts as values, in their order.
pub open spec fn contact_models(v: Seq<Contact>) -> Seq<ContactModel> {
    Seq::new(v.len(), |i: int| v[i]@)
}

/// A control character.
pub open spec fn is_control(c: char) -> bool {
    c < '\u{20}' || ('\u{7f}' <= c && c <= '\u{9f}')
}

/// What is wrong with a name, if anything: it is empty, or it holds a control
/// character.
pub open spec fn name_fault(name: Seq<char>) -> Option<Seq<char>> {
    if name.len() == 0 {
        Some("it is empty"@)
    } else if exists|i: int| 0 <= i < name.len() && is_control(#[trigger] name[i]) {
        Some("control characters are not allowed"@)
    } else {
        None
    }
}

/// Refuses a name that is empty or holds a control character.
pub fn validate_name(name: &str) -> (r: Result<(), ContactError>)
    ensures
        match (r, name_fault(name@)) {
            (Ok(_), None) => true,
            (Err(ContactError::InvalidName { name: n, why }), Some(w)) => n@ == name@ && why@ == w,
            _ => false,
        },
{
    let v = chars_of(name);
    if v.len() == 0 {
        return Err(ContactError::InvalidName { name: name.to_owned(), why: "it is empty" });
    }
    let mut i: usize = 0;
    while i < v.len()
        invariant
            i <= v@.len(),
            v@ == name@,
            v@.len() > 0,
            forall|k: int| 0 <= k < i ==> !is_control(#[trigger] v@[k]),
        decreases v@.len() - i,
    {
        let c: char = v[i];
        if c < '\u{20}' || ('\u{7f}' <= c && c <= '\u{9f}') {
            assert(is_control(name@[i as int]));
            return Err(
                ContactError::InvalidName {
                    name: name.to_owned(),
                    why: "control characters are not allowed",
                },
            );
        }
        i += 1;
    }
    Ok(())
}

/// Bytes in lowercase hexadecimal.
pub fn encode_hex(bytes: &[u8]) -> (r: String)
    ensures
        r@ == hex_text(bytes@),
{
    hex_of(bytes)
}

/// Reads pairs of characters as bytes in base 16.
pub fn decode_hex(text: &str) -> (r: Option<Vec<u8>>)
    ensures
        match r {
            Some(v) => pairs_text(text@) == Some(v@),
            None => pairs_text(text@) is None,
        },
{
    let v = chars_of(text);
    pairs_bytes(&v)
}

/// An address text and the forms of the address that it writes.
#[derive(Clone, Debug)]
pub struct KnownAddress {
    pub text: String,
    pub forms: AddressForms,
}

/// An address's two forms as values.
pub struct FormsModel {
    pub full: Seq<char>,
    pub short: Seq<char>,
}

/// What an address text writes, by the first entry from place `i` on that has
/// it; nothing where the text is no address.
pub open spec fn forms_from(known: Seq<KnownAddress>, text: Seq<char>, i: int) -> Option<FormsModel>
    decreases known.len() - i,
{
    if i < 0 || i >= known.len() {
        None
    } else if known[i].text@ == text {
        Some(FormsModel { full: known[i].forms.full@, short: known[i].forms.short@ })
    } else {
        forms_from(known, text, i + 1)
    }
}

fn find_forms(known: &Vec<KnownAddress>, text: &[char]) -> (r: Option<AddressForms>)
    ensures
        match (r, forms_from(known@, text@, 0)) {
            (Some(f), Some(m)) => f.full@ == m.full && f.short@ == m.short,
            (None, None) => true,
            _ => false,
        },
{
    let mut i: usize = 0;
    while i < known.len()
        invariant
            i <= known@.len(),
            forms_from(known@, text@, 0) == forms_from(known@, text@, i as int),
        decreases known@.len() - i,
    {
        if text_is(text, known[i].text.as_str()) {
            let full = known[i].forms.full.clone();
            let short = known[i].forms.short.clone();
            return Some(AddressForms { full, short });
        }
        i += 1;
    }
    None
}

/// What has been read of a record so far.
#[verifier::ext_equal]
pub struct EntryModel {
    pub name: Option<Seq<char>>,
    pub address: Option<FormsModel>,
}

/// The entry with one more field read, or what is wrong with it.
pub open spec fn with_entry(
    known: Seq<KnownAddress>,
    e: EntryModel,
    field: Seq<char>,
) -> Result<EntryModel, Seq<char>> {
    match parted_at(field, '=') {
        None => Err("field "@ + debug_text(field) + " is not key=value"@),
        Some((key, value)) => {
            if key == "name_hex"@ {
                if e.name is Some {
                    Err("duplicate field `"@ + key + "`"@)
                } else {
                    match pairs_text(value) {
                        None => Err("name_hex is not even-length hexadecimal"@),
                        Some(bytes) => if !valid_utf8(bytes) {
                            Err("name_hex is not UTF-8"@)
                        } else {
                            match name_fault(decode_utf8(bytes)) {
                                Some(why) => Err(
                                    "invalid contact name `"@ + decode_utf8(bytes) + "`: "@ + why,
                                ),
                                None => Ok(
                                    EntryModel {
                                        name: Some(decode_utf8(bytes)),
                                        address: e.address,
                                    },
                                ),
                            }
                        },
                    }
                }
            } else if key == "address"@ {
                if e.address is Some {
                    Err("duplicate field `"@ + key + "`"@)
                } else {
                    match forms_from(known, value, 0) {
                        None => Err("address is not a valid full qaddr1… address"@),
                        Some(f) => Ok(EntryModel { name: e.name, address: Some(f) }),
                    }
                }
            } else {
                Err("unknown field `"@ + key + "`"@)
            }
        },
    }
}

/// The entry of the fields from place 1 to `n`.
pub open spec fn entry_to(known: Seq<KnownAddress>, fields: Seq<Seq<char>>, n: int) -> Result<
    EntryModel,
    Seq<char>,
>
    decreases n,
{
    if n <= 1 {
        Ok(EntryModel { name: None, address: None })
    } else {
        match entry_to(known, fields, n - 1) {
            Err(e) => Err(e),
            Ok(e) => with_entry(known, e, fields[n - 1]),
        }
    }
}

/// The contact that a line writes, or what is wrong with it.
pub open spec fn contact_of(known: Seq<KnownAddress>, line: Seq<char>) -> Result<
    ContactModel,
    Seq<char>,
> {
    let fields = split_on(line, '\t');
    if fields[0] != "contact"@ {
        Err("record kind is not `contact`"@)
    } else {
        match entry_to(known, fields, fields.len() as int) {
            Err(e) => Err(e),
            Ok(e) => match (e.name, e.address) {
                (Some(name), Some(f)) => Ok(
                    ContactModel { name, address: f.full, short: f.short },
                ),
                (None, _) => Err("missing name_hex"@),
                (Some(_), None) => Err("missing address"@),
            },
        }
    }
}

/// The first contact of that name, from place `i` on.
pub open spec fn named_from(contacts: Seq<ContactModel>, name: Seq<char>, i: int) -> Option<int>
    decreases contacts.len() - i,
{
    if i < 0 || i >= contacts.len() {
        None
    } else if contacts[i].name == name {
        Some(i)
    } else {
        named_from(contacts, name, i + 1)
    }
}

/// What is wrong with a book: its first line, or a record and its line.
#[allow(inconsistent_fields)]
pub enum BookFault {
    Header { got: Seq<char> },
    Record { line: nat, why: Seq<char> },
}

/// The contacts of the lines from place 1 to `n`; empty lines are left out.
pub open spec fn contacts_to(known: Seq<KnownAddress>, all: Seq<Seq<char>>, n: int) -> Result<
    Seq<ContactModel>,
    BookFault,
>
    decreases n,
{
    if n <= 1 {
        Ok(Seq::empty())
    } else {
        match contacts_to(known, all, n - 1) {
            Err(e) => Err(e),
            Ok(v) => if all[n - 1].len() == 0 {
                Ok(v)
            } else {
                match contact_of(known, all[n - 1]) {
                    Err(why) => Err(BookFault::Record { line: n as nat, why }),
                    Ok(c) => if named_from(v, c.name, 0) is Some {
                        Err(
                            BookFault::Record {
                                line: n as nat,
                                why: "duplicate contact name `"@ + c.name + "`"@,
                            },
                        )
                    } else {
                        Ok(v.push(c))
                    },
                }
            },
        }
    }
}

/// What a contact book's text means.
pub open spec fn book_of(known: Seq<KnownAddress>, text: Seq<char>) -> Result<
    Seq<ContactModel>,
    BookFault,
> {
    let all = lines_of(text);
    if all.len() == 0 {
        Err(BookFault::Header { got: Seq::empty() })
    } else if all[0] != CONTACTS_HEADER@ {
        Err(BookFault::Header { got: all[0] })
    } else {
        contacts_to(known, all, all.len() as int)
    }
}

/// The refusal that names what is wrong with a book.
pub open spec fn book_refusal(e: ContactError, fault: BookFault, path: Seq<char>) -> bool {
    match fault {
        BookFault::Header { got } => e matches ContactError::BadHeader { path: p, got: g } && p@
            == path && g@ == got,
        BookFault::Record { line, why } => e matches ContactError::BadRecord {
            path: p,
            line: l,
            why: w,
        } && p@ == path && l == line && w@ == why,
    }
}

/// `head`, the text in backquotes, and nothing more.
fn named(head: &str, v: &[char]) -> (r: String)
    ensures
        r@ == head@ + v@ + "`"@,
{
    let mut e: String = head.to_owned();
    let shown = string_of(v);
    e.append(shown.as_str());
    e.append("`");
    e
}

struct Entry {
    name: Option<String>,
    address: Option<AddressForms>,
}

impl Entry {
    spec fn view(&self) -> EntryModel {
        EntryModel {
            name: match self.name {
                Some(n) => Some(n@),
                None => None,
            },
            address: match self.address {
                Some(f) => Some(FormsModel { full: f.full@, short: f.short@ }),
                None => None,
            },
        }
    }
}

/// Reads one more field.
fn read_entry(known: &Vec<KnownAddress>, e: &mut Entry, field: &[char]) -> (r: Result<(), String>)
    ensures
        match (r, with_entry(known@, old(e)@, field@)) {
            (Ok(_), Ok(m)) => final(e)@ == m,
            (Err(a), Err(b)) => a@ == b,
            _ => false,
        },
{
    match split_once(field, '=') {
        None => {
            let mut s: String = "field ".to_owned();
            let shown = string_of(field);
            let q = debug_of(shown.as_str());
            s.append(q.as_str());
            s.append(" is not key=value");
            Err(s)
        },
        Some((key, value)) => {
            if text_is(&key, "name_hex") {
                if e.name.is_some() {
                    return Err(named("duplicate field `", &key));
                }
                match pairs_bytes(&value) {
                    None => Err("name_hex is not even-length hexadecimal".to_owned()),
                    Some(bytes) => match utf8_string(bytes) {
                        None => Err("name_hex is not UTF-8".to_owned()),
                        Some(name) => match validate_name(name.as_str()) {
                            Err(fault) => Err(fault.message()),
                            Ok(_) => {
                                e.name = Some(name);
                                Ok(())
                            },
                        },
                    },
                }
            } else if text_is(&key, "address") {
                if e.address.is_some() {
                    return Err(named("duplicate field `", &key));
                }
                match find_forms(known, &value) {
                    None => Err("address is not a valid full qaddr1… address".to_owned()),
                    Some(f) => {
                        e.address = Some(f);
                        Ok(())
                    },
                }
            } else {
                Err(named("unknown field `", &key))
            }
        },
    }
}

proof fn lemma_entry_err(known: Seq<KnownAddress>, fields: Seq<Seq<char>>, n: int, m: int)
    requires
        n <= m,
        entry_to(known, fields, n) is Err,
    ensures
        entry_to(known, fields, m) == entry_to(known, fields, n),
    decreases m - n,
{
    if n < m {
        lemma_entry_err(known, fields, n, m - 1);
    }
}

fn parse_contact(known: &Vec<KnownAddress>, line: &[char]) -> (r: Result<Contact, String>)
    ensures
        match (r, contact_of(known@, line@)) {
            (Ok(a), Ok(b)) => a@ == b,
            (Err(a), Err(b)) => a@ == b,
            _ => false,
        },
{
    let fields = split(line, '\t');
    let ghost all = texts(fields@);
    proof {
        lemma_position(line@, '\t');
    }
    assert(all[0] == fields@[0]@);
    if !text_is(&fields[0], "contact") {
        return Err("record kind is not `contact`".to_owned());
    }
    let mut e = Entry { name: None, address: None };
    let mut i: usize = 1;
    assert(e@ =~= EntryModel { name: None, address: None });
    while i < fields.len()
        invariant
            1 <= i <= fields@.len(),
            all == texts(fields@),
            all == split_on(line@, '\t'),
            all[0] == "contact"@,
            entry_to(known@, all, i as int) == Ok::<EntryModel, Seq<char>>(e@),
        decreases fields@.len() - i,
    {
        assert(all[i as int] == fields@[i as int]@);
        if let Err(why) = read_entry(known, &mut e, &fields[i]) {
            proof {
                lemma_entry_err(known@, all, i + 1, all.len() as int);
            }
            return Err(why);
        }
        i += 1;
    }
    match (e.name, e.address) {
        (Some(name), Some(f)) => Ok(Contact { name, address: f.full, fingerprint: f.short }),
        (None, _) => Err("missing name_hex".to_owned()),
        (Some(_), None) => Err("missing address".to_owned()),
    }
}

/// The contacts, in the order they were added. No two have one name.
#[derive(Clone, Debug)]
pub struct ContactBook {
    pub contacts: Vec<Contact>,
}

proof fn lemma_named(contacts: Seq<ContactModel>, name: Seq<char>, i: int)
    requires
        0 <= i <= contacts.len(),
    ensures
        match named_from(contacts, name, i) {
            Some(k) => i <= k < contacts.len() && contacts[k].name == name,
            None => forall|k: int| i <= k < contacts.len() ==> (#[trigger] contacts[k]).name != name,
        },
    decreases contacts.len() - i,
{
    if i < contacts.len() && contacts[i].name != name {
        lemma_named(contacts, name, i + 1);
    }
}

proof fn lemma_contacts_err(known: Seq<KnownAddress>, all: Seq<Seq<char>>, n: int, m: int)
    requires
        n <= m,
        contacts_to(known, all, n) is Err,
    ensures
        contacts_to(known, all, m) == contacts_to(known, all, n),
    decreases m - n,
{
    if n < m {
        lemma_contacts_err(known, all, n, m - 1);
    }
}

impl ContactBook {
    pub open spec fn model(&self) -> Seq<ContactModel> {
        contact_models(self.contacts@)
    }

    /// No two contacts have one name, and every name can be written.
    pub open spec fn wf(&self) -> bool {
        &&& forall|i: int, j: int|
            0 <= i < j < self.model().len() ==> (#[trigger] self.model()[i]).name != (
            #[trigger] self.model()[j]).name
        &&& forall|i: int|
            0 <= i < self.model().len() ==> name_fault((#[trigger] self.model()[i]).name) is None
    }

    /// A book without contacts: what an absent file means.
    pub fn empty() -> (r: ContactBook)
        ensures
            r.contacts@.len() == 0,
            r.wf(),
    {
        ContactBook { contacts: Vec::new() }
    }

    pub fn entries(&self) -> (r: &[Contact])
        ensures
            r@ == self.contacts@,
    {
        &self.contacts
    }

    fn find(&self, name: &str) -> (r: Option<usize>)
        ensures
            match r {
                Some(i) => named_from(self.model(), name@, 0) == Some(i as int) && i
                    < self.contacts@.len(),
                None => named_from(self.model(), name@, 0) is None,
            },
    {
        let mut i: usize = 0;
        while i < self.contacts.len()
            invariant
                i <= self.contacts@.len(),
                named_from(self.model(), name@, 0) == named_from(self.model(), name@, i as int),
            decreases self.contacts@.len() - i,
        {
            assert(self.model()[i as int].name == self.contacts@[i as int].name@);
            if str_eq(self.contacts[i].name.as_str(), name) {
                return Some(i);
            }
            i += 1;
        }
        None
    }

    /// The contact of a name.
    pub fn resolve(&self, name: &str) -> (r: Result<&Contact, ContactError>)
        ensures
            match named_from(self.model(), name@, 0) {
                Some(i) => r matches Ok(c) && *c == self.contacts@[i],
                None => r matches Err(ContactError::UnknownName(n)) && n@ == name@,
            },
            match r {
                Ok(c) => c.name@ == name@ && self.contacts@.contains(*c),
                Err(_) => forall|i: int|
                    0 <= i < self.contacts@.len() ==> (#[trigger] self.contacts@[i]).name@ != name@,
            },
    {
        proof {
            lemma_named(self.model(), name@, 0);
            if named_from(self.model(), name@, 0) is None {
                assert forall|i: int| 0 <= i < self.contacts@.len() implies (
                #[trigger] self.contacts@[i]).name@ != name@ by {
                    assert(self.model()[i].name != name@);
                }
            }
        }
        match self.find(name) {
            Some(i) => Ok(&self.contacts[i]),
            None => Err(ContactError::UnknownName(name.to_owned())),
        }
    }

    /// Adds a contact behind the others; `address` are the forms of the address
    /// that was given, if it is one.
    pub fn add(&mut self, name: &str, address: Option<AddressForms>) -> (r: Result<
        Contact,
        ContactError,
    >)
        requires
            old(self).wf(),
        ensures
            final(self).wf(),
            match r {
                Ok(c) => {
                    &&& name_fault(name@) is None && named_from(old(self).model(), name@, 0) is None
                    &&& address matches Some(f) && c@ == (ContactModel {
                        name: name@,
                        address: f.full@,
                        short: f.short@,
                    })
                    &&& final(self).model() == old(self).model().push(c@)
                },
                Err(e) => {
                    &&& *final(self) == *old(self)
                    &&& if name_fault(name@) is Some {
                        e matches ContactError::InvalidName { name: n, why } && n@ == name@ && why@
                            == name_fault(name@)->0
                    } else if address is None {
                        e == ContactError::InvalidAddress
                    } else {
                        named_from(old(self).model(), name@, 0) is Some
                            && (e matches ContactError::DuplicateName(n) && n@ == name@)
                    }
                },
            },
    {
        if let Err(e) = validate_name(name) {
            return Err(e);
        }
        match address {
            None => Err(ContactError::InvalidAddress),
            Some(f) => {
                proof {
                    lemma_named(self.model(), name@, 0);
                }
                if self.find(name).is_some() {
                    return Err(ContactError::DuplicateName(name.to_owned()));
                }
                let ghost before = self.model();
                let contact = Contact {
                    name: name.to_owned(),
                    address: f.full.clone(),
                    fingerprint: f.short.clone(),
                };
                let kept = Contact { name: name.to_owned(), address: f.full, fingerprint: f.short };
                assert(kept@ == contact@);
                self.contacts.push(kept);
                assert(self.model() =~= before.push(contact@));
                Ok(contact)
            },
        }
    }

    /// Takes a contact out; the others keep their order.
    pub fn remove(&mut self, name: &str) -> (r: Result<Contact, ContactError>)
        requires
            old(self).wf(),
        ensures
            final(self).wf(),
            match r {
                Ok(c) => {
                    &&& name_fault(name@) is None
                    &&& named_from(old(self).model(), name@, 0) matches Some(i) && c
                        == old(self).contacts@[i] && final(self).contacts@
                        == old(self).contacts@.remove(i)
                },
                Err(e) => {
                    &&& *final(self) == *old(self)
                    &&& if name_fault(name@) is Some {
                        e matches ContactError::InvalidName { name: n, why } && n@ == name@ && why@
                            == name_fault(name@)->0
                    } else {
                        named_from(old(self).model(), name@, 0) is None
                            && (e matches ContactError::UnknownName(n) && n@ == name@)
                    }
                },
            },
    {
        if let Err(e) = validate_name(name) {
            return Err(e);
        }
        match self.find(name) {
            None => Err(ContactError::UnknownName(name.to_owned())),
            Some(i) => {
                let ghost before = self.model();
                let c = self.contacts.remove(i);
                proof {
                    assert forall|a: int, b: int| 0 <= a < b < self.model().len() implies (
                    #[trigger] self.model()[a]).name != (#[trigger] self.model()[b]).name by {
                        let x = if a < i {
                            a
                        } else {
                            a + 1
                        };
                        let y = if b < i {
                            b
                        } else {
                            b + 1
                        };
                        assert(self.model()[a] == before[x] && self.model()[b] == before[y]);
                    }
                    assert forall|a: int| 0 <= a < self.model().len() implies name_fault(
                        (#[trigger] self.model()[a]).name,
                    ) is None by {
                        let x = if a < i {
                            a
                        } else {
                            a + 1
                        };
                        assert(self.model()[a] == before[x]);
                    }
                }
                Ok(c)
            },
        }
    }
}

/// A name is refused exactly if it is empty or one of its characters is below a
/// space or from delete to the end of the second control block.
pub proof fn law_a_name_is_refused_for_its_characters(name: Seq<char>)
    ensures
        name_fault(name) is None <==> name.len() > 0 && forall|i: int|
            0 <= i < name.len() ==> (#[trigger] name[i]) >= '\u{20}' && (name[i] < '\u{7f}' || name[i]
                > '\u{9f}'),
{
    if name_fault(name) is None {
        assert forall|i: int| 0 <= i < name.len() implies (#[trigger] name[i]) >= '\u{20}' && (name[i]
            < '\u{7f}' || name[i] > '\u{9f}') by {
            assert(!is_control(name[i]));
        }
    }
}

/// What is looked up in a book: a name finds the contact that has it, and nothing
/// where none has. A contact that was added is found under its name and changes
/// what no other name finds; one that was taken out is found no more, and every
/// other contact still is.
pub proof fn law_a_name_finds_its_contact(book: Seq<ContactModel>, c: ContactModel, name: Seq<char>)
    requires
        forall|i: int, j: int|
            0 <= i < j < book.len() ==> (#[trigger] book[i]).name != (#[trigger] book[j]).name,
    ensures
        match named_from(book, name, 0) {
            Some(k) => 0 <= k < book.len() && book[k].name == name,
            None => forall|k: int| 0 <= k < book.len() ==> (#[trigger] book[k]).name != name,
        },
        named_from(book, c.name, 0) is None ==> {
            &&& named_from(book.push(c), c.name, 0) == Some(book.len() as int)
            &&& name != c.name ==> named_from(book.push(c), name, 0) == named_from(book, name, 0)
        },
        named_from(book, c.name, 0) matches Some(k) ==> {
            let after = book.remove(k);
            &&& named_from(after, c.name, 0) is None
            &&& name != c.name ==> match (named_from(book, name, 0), named_from(after, name, 0)) {
                (Some(i), Some(j)) => book[i] == after[j],
                (None, None) => true,
                _ => false,
            }
        },
{
    lemma_named(book, name, 0);
    lemma_named(book, c.name, 0);
    let more = book.push(c);
    lemma_named(more, name, 0);
    lemma_named(more, c.name, 0);
    match named_from(book, c.name, 0) {
        None => {
            assert(more[book.len() as int] == c);
            let k = named_from(more, c.name, 0)->0;
            if k < book.len() {
                assert(book[k].name == c.name);
            }
            if name != c.name {
                if let Some(j) = named_from(more, name, 0) {
                    assert(book[j].name == name);
                    let i = named_from(book, name, 0)->0;
                    assert(named_from(book, name, 0) is Some);
                    assert(i == j) by {
                        if i < j {
                            assert(book[i].name != book[j].name);
                        } else if j < i {
                            assert(book[j].name != book[i].name);
                        }
                    }
                } else if let Some(i) = named_from(book, name, 0) {
                    assert(more[i].name == name);
                }
            }
        },
        Some(k) => {
            let after = book.remove(k);
            lemma_named(after, c.name, 0);
            lemma_named(after, name, 0);
            if let Some(j) = named_from(after, c.name, 0) {
                let x = if j < k {
                    j
                } else {
                    j + 1
                };
                assert(after[j] == book[x]);
                if x < k {
                    assert(book[x].name != book[k].name);
                } else {
                    assert(book[k].name != book[x].name);
                }
            }
            if name != c.name {
                if let Some(j) = named_from(after, name, 0) {
                    let x = if j < k {
                        j
                    } else {
                        j + 1
                    };
                    assert(after[j] == book[x]);
                    let i = named_from(book, name, 0)->0;
                    assert(named_from(book, name, 0) is Some);
                    assert(i == x) by {
                        if i < x {
                            assert(book[i].name != book[x].name);
                        } else if x < i {
                            assert(book[x].name != book[i].name);
                        }
                    }
                } else if let Some(i) = named_from(book, name, 0) {
                    let y = if i < k {
                        i
                    } else {
                        i - 1
                    };
                    assert(i != k);
                    assert(after[y] == book[i]);
                }
            }
        },
    }
}

/// Reads a book's text; `path` is named in a refusal, and `known` says which
/// address texts are addresses.
pub fn parse(path: &str, text: &str, known: &Vec<KnownAddress>) -> (r: Result<
    ContactBook,
    ContactError,
>)
    ensures
        match (r, book_of(known@, text@)) {
            (Ok(book), Ok(v)) => book.model() == v && book.wf(),
            (Err(e), Err(fault)) => book_refusal(e, fault, path@),
            _ => false,
        },
{
    let chars = chars_of(text);
    let all = lines(&chars);
    let ghost ls = texts(all@);
    if all.len() == 0 {
        return Err(ContactError::BadHeader { path: path.to_owned(), got: String::new() });
    }
    assert(ls[0] == all@[0]@);
    if !text_is(&all[0], CONTACTS_HEADER) {
        return Err(ContactError::BadHeader { path: path.to_owned(), got: string_of(&all[0]) });
    }
    let mut book = ContactBook { contacts: Vec::new() };
    let mut i: usize = 1;
    assert(book.model() =~= Seq::empty());
    while i < all.len()
        invariant
            1 <= i <= all@.len(),
            ls == texts(all@),
            ls == lines_of(text@),
            ls[0] == CONTACTS_HEADER@,
            book.wf(),
            contacts_to(known@, ls, i as int) == Ok::<Seq<ContactModel>, BookFault>(book.model()),
        decreases all@.len() - i,
    {
        assert(ls[i as int] == all@[i as int]@);
        if all[i].len() > 0 {
            match parse_contact(known, &all[i]) {
                Ok(c) => {
                    let ghost before = book.model();
                    proof {
                        lemma_named(before, c@.name, 0);
                    }
                    if book.find(c.name.as_str()).is_some() {
                        let shown = chars_of(c.name.as_str());
                        let why = named("duplicate contact name `", &shown);
                        proof {
                            lemma_contacts_err(known@, ls, i + 1, ls.len() as int);
                        }
                        return Err(
                            ContactError::BadRecord { path: path.to_owned(), line: i + 1, why },
                        );
                    }
                    proof {
                        lemma_contact_name(known@, ls[i as int]);
                    }
                    book.contacts.push(c);
                    assert(book.model() =~= before.push(c@));
                },
                Err(why) => {
                    proof {
                        lemma_contacts_err(known@, ls, i + 1, ls.len() as int);
                    }
                    return Err(
                        ContactError::BadRecord { path: path.to_owned(), line: i + 1, why },
                    );
                },
            }
        }
        i += 1;
    }
    Ok(book)
}

proof fn lemma_entry_name(known: Seq<KnownAddress>, fields: Seq<Seq<char>>, n: int)
    ensures
        entry_to(known, fields, n) matches Ok(e) ==> (e.name matches Some(name) ==> name_fault(
            name,
        ) is None),
    decreases n,
{
    if n > 1 {
        lemma_entry_name(known, fields, n - 1);
    }
}

proof fn lemma_contact_name(known: Seq<KnownAddress>, line: Seq<char>)
    ensures
        contact_of(known, line) matches Ok(c) ==> name_fault(c.name) is None,
{
    let fields = split_on(line, '\t');
    lemma_entry_name(known, fields, fields.len() as int);
}

/// The line of a contact.
pub open spec fn contact_text(c: ContactModel) -> Seq<char> {
    "contact\tname_hex="@ + hex_text(encode_utf8(c.name)) + "\taddress="@ + c.address
}

/// The lines of the contacts from place `i` on.
pub open spec fn contacts_text(contacts: Seq<ContactModel>, i: int) -> Seq<char>
    decreases contacts.len() - i,
{
    if i < 0 || i >= contacts.len() {
        Seq::empty()
    } else {
        contact_text(contacts[i]) + "\n"@ + contacts_text(contacts, i + 1)
    }
}

/// The text of a book.
pub open spec fn book_text(contacts: Seq<ContactModel>) -> Seq<char> {
    CONTACTS_HEADER@ + "\n"@ + contacts_text(contacts, 0)
}

impl ContactBook {
    /// The text that is saved.
    pub fn encode(&self) -> (r: String)
        ensures
            r@ == book_text(self.model()),
    {
        let mut s: String = String::new();
        s.append(CONTACTS_HEADER);
        s.append("\n");
        let ghost m = self.model();
        let ghost goal = book_text(m);
        let mut i: usize = 0;
        assert(s@ + contacts_text(m, 0) =~= goal);
        while i < self.contacts.len()
            invariant
                i <= self.contacts@.len(),
                m == self.model(),
                s@ + contacts_text(m, i as int) == goal,
            decreases self.contacts@.len() - i,
        {
            let ghost before = s@;
            let c = &self.contacts[i];
            s.append("contact\tname_hex=");
            push_hex(&mut s, c.name.as_str().as_bytes());
            s.append("\taddress=");
            s.append(c.address.as_str());
            s.append("\n");
            i += 1;
            proof {
                let line = contact_text(m[i - 1]) + "\n"@;
                assert(s@ =~= before + line);
                assert(s@ + contacts_text(m, i as int) =~= before + (line + contacts_text(
                    m,
                    i as int,
                )));
            }
        }
        assert(s@ =~= goal);
        s
    }
}

/// A contact that its line keeps: a name that can be written, and an address
/// that is known to write itself and holds no tab and no line end.
pub open spec fn contact_kept(known: Seq<KnownAddress>, c: ContactModel) -> bool {
    &&& name_fault(c.name) is None
    &&& forms_from(known, c.address, 0) matches Some(f) && f.full == c.address && f.short == c.short
    &&& lacks(c.address, '\t') && lacks(c.address, '\n') && lacks(c.address, '\r')
}

proof fn lemma_contact_strings()
    ensures
        "contact\tname_hex="@ == "contact"@.push('\t') + "name_hex"@.push('='),
        "\taddress="@ == seq!['\t'] + "address"@.push('='),
        lacks("contact"@, '\t') && lacks("contact"@, '\n'),
        lacks("name_hex"@, '\t') && lacks("name_hex"@, '\n') && lacks("name_hex"@, '='),
        lacks("address"@, '\t') && lacks("address"@, '\n') && lacks("address"@, '='),
        "address"@ != "name_hex"@,
        "contact"@.len() == 7,
{
    reveal_strlit("contact\tname_hex=");
    reveal_strlit("contact");
    reveal_strlit("name_hex");
    reveal_strlit("\taddress=");
    reveal_strlit("address");
    assert("contact\tname_hex="@ =~= "contact"@.push('\t') + "name_hex"@.push('='));
    assert("\taddress="@ =~= seq!['\t'] + "address"@.push('='));
    assert("address"@.len() != "name_hex"@.len());
}

/// A contact's line reads back as the contact.
pub proof fn law_contact_reads_back(known: Seq<KnownAddress>, c: ContactModel)
    requires
        contact_kept(known, c),
    ensures
        contact_of(known, contact_text(c)) == Ok::<ContactModel, Seq<char>>(c),
        lacks(contact_text(c), '\n'),
        contact_text(c).len() > 0,
        contact_text(c).last() != '\r',
{
    lemma_contact_strings();
    let bytes = encode_utf8(c.name);
    let hex = hex_text(bytes);
    lemma_hex_lacks(bytes, '\t');
    lemma_hex_lacks(bytes, '\n');
    lemma_pairs_of_hex(bytes);
    vstd::utf8::encode_utf8_valid_utf8(c.name);
    vstd::utf8::encode_utf8_decode_utf8(c.name);
    let kind = "contact"@;
    let f1 = "name_hex"@.push('=') + hex;
    let f2 = "address"@.push('=') + c.address;
    let t1 = f1.push('\t') + f2;
    let t0 = kind.push('\t') + t1;
    assert(contact_text(c) =~= t0);
    assert(lacks(f1, '\t') && lacks(f2, '\t'));
    lemma_split_none(f2, '\t');
    lemma_split_first(f1, '\t', f2);
    lemma_split_first(kind, '\t', t1);
    let fields = seq![kind, f1, f2];
    assert(split_on(t0, '\t') =~= fields);
    lemma_parted("name_hex"@, '=', hex);
    lemma_parted("address"@, '=', c.address);
    let e0 = EntryModel { name: None, address: None };
    assert(entry_to(known, fields, 1) == Ok::<EntryModel, Seq<char>>(e0));
    let e1 = with_entry(known, e0, f1)->Ok_0;
    assert(entry_to(known, fields, 2) == Ok::<EntryModel, Seq<char>>(e1));
    let e2 = with_entry(known, e1, f2)->Ok_0;
    assert(entry_to(known, fields, 3) == Ok::<EntryModel, Seq<char>>(e2));
    assert(contact_of(known, t0)->Ok_0 =~= c);
    assert(lacks(f1, '\n') && lacks(f2, '\n'));
    assert(lacks(t1, '\n'));
    assert(lacks(t0, '\n'));
    if c.address.len() == 0 {
        assert(t0.last() == '=');
    } else {
        assert(t0.last() == c.address.last());
    }
}

#[verifier::rlimit(40)]
#[verifier::spinoff_prover]
proof fn lemma_contacts_lines(known: Seq<KnownAddress>, contacts: Seq<ContactModel>, i: int)
    requires
        0 <= i <= contacts.len(),
        forall|k: int| 0 <= k < contacts.len() ==> contact_kept(known, #[trigger] contacts[k]),
    ensures
        lines_of(contacts_text(contacts, i)) == Seq::new(
            (contacts.len() - i) as nat,
            |k: int| contact_text(contacts[i + k]),
        ),
    decreases contacts.len() - i,
{
    reveal_strlit("\n");
    if i < contacts.len() {
        let l = contact_text(contacts[i]);
        let rest = contacts_text(contacts, i + 1);
        lemma_contacts_lines(known, contacts, i + 1);
        law_contact_reads_back(known, contacts[i]);
        assert(l + "\n"@ + rest =~= l.push('\n') + rest);
        lemma_lines_of_first(l, rest);
    }
    assert(lines_of(contacts_text(contacts, i)) =~= Seq::new(
        (contacts.len() - i) as nat,
        |k: int| contact_text(contacts[i + k]),
    ));
}

proof fn lemma_contacts_back(
    known: Seq<KnownAddress>,
    all: Seq<Seq<char>>,
    contacts: Seq<ContactModel>,
    n: int,
)
    requires
        1 <= n <= contacts.len() + 1,
        all.len() == contacts.len() + 1,
        forall|k: int| 0 <= k < contacts.len() ==> contact_kept(known, #[trigger] contacts[k]),
        forall|i: int, j: int|
            0 <= i < j < contacts.len() ==> (#[trigger] contacts[i]).name != (
            #[trigger] contacts[j]).name,
        forall|k: int| 1 <= k < all.len() ==> #[trigger] all[k] == contact_text(contacts[k - 1]),
    ensures
        contacts_to(known, all, n) == Ok::<Seq<ContactModel>, BookFault>(contacts.take(n - 1)),
    decreases n,
{
    if n > 1 {
        lemma_contacts_back(known, all, contacts, n - 1);
        let c = contacts[n - 2];
        law_contact_reads_back(known, c);
        assert(all[n - 1] == contact_text(c));
        let before = contacts.take(n - 2);
        lemma_named(before, c.name, 0);
        if let Some(k) = named_from(before, c.name, 0) {
            assert(before[k] == contacts[k]);
        }
        assert(contacts.take(n - 1) =~= before.push(c));
    } else {
        assert(contacts.take(0) =~= Seq::empty());
    }
}

/// A saved book reads back as its contacts, in their order.
pub proof fn law_book_reads_back(known: Seq<KnownAddress>, contacts: Seq<ContactModel>)
    requires
        forall|k: int| 0 <= k < contacts.len() ==> contact_kept(known, #[trigger] contacts[k]),
        forall|i: int, j: int|
            0 <= i < j < contacts.len() ==> (#[trigger] contacts[i]).name != (
            #[trigger] contacts[j]).name,
    ensures
        book_of(known, book_text(contacts)) == Ok::<Seq<ContactModel>, BookFault>(contacts),
{
    reveal_strlit("\n");
    reveal_strlit("qumbra-wallet contacts v1");
    let rest = contacts_text(contacts, 0);
    lemma_contacts_lines(known, contacts, 0);
    assert(book_text(contacts) =~= CONTACTS_HEADER@.push('\n') + rest);
    lemma_lines_of_first(CONTACTS_HEADER@, rest);
    let all = lines_of(book_text(contacts));
    assert forall|k: int| 1 <= k < all.len() implies #[trigger] all[k] == contact_text(
        contacts[k - 1],
    ) by {
        assert(all[k] == lines_of(rest)[k - 1]);
    }
    lemma_contacts_back(known, all, contacts, all.len() as int);
    assert(contacts.take(contacts.len() as int) =~= contacts);
}

} // verus!
