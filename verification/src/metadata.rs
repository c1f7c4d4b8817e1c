//! Keyword heuristics for contract type, clause type and jurisdiction.
//! Deliberately plain and auditable: tables of labels with the lowercase
//! keywords that signal them; the first label with a matching keyword wins.

use vstd::prelude::*;
use crate::chars::{self, chars_of, to_lower, contains_chars, string_of};
use crate::strs::{self, views, owned, owned_all};

verus! {

/// A label and the lowercase keywords whose presence signals it.
pub type LabelTable = Seq<(Seq<char>, Seq<Seq<char>>)>;

pub struct Label {
    pub name: String,
    pub keywords: Vec<String>,
}

impl Label {
    pub open spec fn view_label(&self) -> (Seq<char>, Seq<Seq<char>>) {
        (self.name@, views(self.keywords@))
    }
}

pub open spec fn labels_view(v: Seq<Label>) -> LabelTable {
    v.map_values(|l: Label| l.view_label())
}

/// Whether `text` contains one of `keywords`.
pub open spec fn mentions_any(text: Seq<char>, keywords: Seq<Seq<char>>) -> bool {
    exists|j: int| 0 <= j < keywords.len() && chars::contains(text, keywords[j])
}

/// The first label of `table` one of whose keywords `text` contains.
pub open spec fn label_for(table: LabelTable, text: Seq<char>) -> Option<Seq<char>>
    decreases table.len(),
{
    if table.len() == 0 {
        None
    } else if mentions_any(text, table[0].1) {
        Some(table[0].0)
    } else {
        label_for(table.drop_first(), text)
    }
}

/// At most the first `n` characters of `s` (`chars().take(n)`).
pub open spec fn prefix(s: Seq<char>, n: nat) -> Seq<char> {
    if s.len() <= n {
        s
    } else {
        s.take(n as int)
    }
}

fn label(name: &str, keywords: &[&str]) -> (r: Label)
    ensures
        r.view_label() == (name@, strs::str_views(keywords@)),
{
    Label { name: owned(name), keywords: owned_all(keywords) }
}

/// Contract types and the keywords that signal them.
pub open spec fn contract_type_table() -> LabelTable {
    seq![
        ("Share Purchase Agreement"@, seq!["share purchase"@, "sale of shares"@, "spa"@]),
        ("Non-Disclosure Agreement"@, seq!["non-disclosure"@, "nondisclosure"@, "confidentiality agreement"@, "nda"@]),
        ("Loan Agreement"@, seq!["loan agreement"@, "facility agreement"@, "credit agreement"@]),
        ("Lease Agreement"@, seq!["lease agreement"@, "agreement of lease"@, "rental agreement"@]),
        ("Employment Agreement"@, seq!["employment agreement"@, "contract of employment"@, "employment contract"@]),
        ("Service Agreement"@, seq!["services agreement"@, "service agreement"@, "master services"@, "consulting agreement"@]),
        ("Shareholders Agreement"@, seq!["shareholders agreement"@, "shareholders' agreement"@]),
        ("Sale Agreement"@, seq!["sale agreement"@, "purchase agreement"@, "sale of business"@]),
        ("Memorandum of Incorporation"@, seq!["memorandum of incorporation"@, "moi"@]),
        ("Joint Venture Agreement"@, seq!["joint venture"@]),
        ("Supply Agreement"@, seq!["supply agreement"@]),
        ("Licence Agreement"@, seq!["licence agreement"@, "license agreement"@, "licensing agreement"@])
    ]
}

/// Clause types and the keywords that signal them.
pub open spec fn clause_type_table() -> LabelTable {
    seq![
        ("Definitions"@, seq!["definition"@, "interpretation"@]),
        ("Termination"@, seq!["termination"@, "terminate"@, "cancellation"@]),
        ("Confidentiality"@, seq!["confidential"@, "non-disclosure"@, "secrecy"@]),
        ("Payment"@, seq!["payment"@, "purchase price"@, "consideration"@, "fees"@, "remuneration"@, "interest rate"@]),
        ("Intellectual Property"@, seq!["intellectual property"@, "copyright"@, "trade mark"@, "trademark"@, "patent"@]),
        ("Indemnity"@, seq!["indemnif"@, "indemnity"@, "hold harmless"@]),
        ("Warranties"@, seq!["warrant"@, "representation"@]),
        ("Force Majeure"@, seq!["force majeure"@, "act of god"@, "vis major"@, "casus fortuitus"@]),
        ("Dispute Resolution"@, seq!["dispute"@, "arbitration"@, "mediation"@]),
        ("Governing Law"@, seq!["governing law"@, "governed by"@, "applicable law"@]),
        ("Notices"@, seq!["notice"@, "domicilium"@, "domicilia"@]),
        ("Breach"@, seq!["breach"@, "default"@, "remedies"@]),
        ("Restraint of Trade"@, seq!["restraint"@, "non-compete"@, "non-solicit"@]),
        ("Assignment"@, seq!["assignment"@, "cession"@, "delegation"@]),
        ("Limitation of Liability"@, seq!["limitation of liability"@, "liability cap"@, "exclusion of liability"@]),
        ("Data Protection"@, seq!["popia"@, "data protection"@, "personal information"@, "gdpr"@, "privacy"@]),
        ("Insurance"@, seq!["insurance"@, "insure"@]),
        ("General"@, seq!["whole agreement"@, "entire agreement"@, "severability"@, "counterparts"@, "variation"@])
    ]
}

/// Jurisdictions and the phrases that signal them.
pub open spec fn jurisdiction_table() -> LabelTable {
    seq![
        ("South Africa"@, seq!["republic of south africa"@, "south africa"@, "laws of south africa"@, "popia"@]),
        ("England and Wales"@, seq!["england and wales"@, "english law"@]),
        ("United States"@, seq!["state of delaware"@, "state of new york"@, "state of california"@, "united states"@]),
        ("Namibia"@, seq!["republic of namibia"@]),
        ("Botswana"@, seq!["republic of botswana"@])
    ]
}

fn contract_types() -> (r: Vec<Label>)
    ensures
        labels_view(r@) == contract_type_table(),
{
    let mut r: Vec<Label> = Vec::new();
    r.push(label("Share Purchase Agreement", &["share purchase", "sale of shares", "spa"]));
    r.push(label("Non-Disclosure Agreement", &["non-disclosure", "nondisclosure", "confidentiality agreement", "nda"]));
    r.push(label("Loan Agreement", &["loan agreement", "facility agreement", "credit agreement"]));
    r.push(label("Lease Agreement", &["lease agreement", "agreement of lease", "rental agreement"]));
    r.push(label("Employment Agreement", &["employment agreement", "contract of employment", "employment contract"]));
    r.push(label("Service Agreement", &["services agreement", "service agreement", "master services", "consulting agreement"]));
    r.push(label("Shareholders Agreement", &["shareholders agreement", "shareholders' agreement"]));
    r.push(label("Sale Agreement", &["sale agreement", "purchase agreement", "sale of business"]));
    r.push(label("Memorandum of Incorporation", &["memorandum of incorporation", "moi"]));
    r.push(label("Joint Venture Agreement", &["joint venture"]));
    r.push(label("Supply Agreement", &["supply agreement"]));
    r.push(label("Licence Agreement", &["licence agreement", "license agreement", "licensing agreement"]));
    assert(r@[0].view_label() == contract_type_table()[0]);
    assert(r@[1].view_label() == contract_type_table()[1]);
    assert(r@[2].view_label() == contract_type_table()[2]);
    assert(r@[3].view_label() == contract_type_table()[3]);
    assert(r@[4].view_label() == contract_type_table()[4]);
    assert(r@[5].view_label() == contract_type_table()[5]);
    assert(r@[6].view_label() == contract_type_table()[6]);
    assert(r@[7].view_label() == contract_type_table()[7]);
    assert(r@[8].view_label() == contract_type_table()[8]);
    assert(r@[9].view_label() == contract_type_table()[9]);
    assert(r@[10].view_label() == contract_type_table()[10]);
    assert(r@[11].view_label() == contract_type_table()[11]);
    assert(labels_view(r@) =~= contract_type_table());
    r
}

fn clause_types() -> (r: Vec<Label>)
    ensures
        labels_view(r@) == clause_type_table(),
{
    let mut r: Vec<Label> = Vec::new();
    r.push(label("Definitions", &["definition", "interpretation"]));
    r.push(label("Termination", &["termination", "terminate", "cancellation"]));
    r.push(label("Confidentiality", &["confidential", "non-disclosure", "secrecy"]));
    r.push(label("Payment", &["payment", "purchase price", "consideration", "fees", "remuneration", "interest rate"]));
    r.push(label("Intellectual Property", &["intellectual property", "copyright", "trade mark", "trademark", "patent"]));
    r.push(label("Indemnity", &["indemnif", "indemnity", "hold harmless"]));
    r.push(label("Warranties", &["warrant", "representation"]));
    r.push(label("Force Majeure", &["force majeure", "act of god", "vis major", "casus fortuitus"]));
    r.push(label("Dispute Resolution", &["dispute", "arbitration", "mediation"]));
    r.push(label("Governing Law", &["governing law", "governed by", "applicable law"]));
    r.push(label("Notices", &["notice", "domicilium", "domicilia"]));
    r.push(label("Breach", &["breach", "default", "remedies"]));
    r.push(label("Restraint of Trade", &["restraint", "non-compete", "non-solicit"]));
    r.push(label("Assignment", &["assignment", "cession", "delegation"]));
    r.push(label("Limitation of Liability", &["limitation of liability", "liability cap", "exclusion of liability"]));
    r.push(label("Data Protection", &["popia", "data protection", "personal information", "gdpr", "privacy"]));
    r.push(label("Insurance", &["insurance", "insure"]));
    r.push(label("General", &["whole agreement", "entire agreement", "severability", "counterparts", "variation"]));
    assert(r@[0].view_label() == clause_type_table()[0]);
    assert(r@[1].view_label() == clause_type_table()[1]);
    assert(r@[2].view_label() == clause_type_table()[2]);
    assert(r@[3].view_label() == clause_type_table()[3]);
    assert(r@[4].view_label() == clause_type_table()[4]);
    assert(r@[5].view_label() == clause_type_table()[5]);
    assert(r@[6].view_label() == clause_type_table()[6]);
    assert(r@[7].view_label() == clause_type_table()[7]);
    assert(r@[8].view_label() == clause_type_table()[8]);
    assert(r@[9].view_label() == clause_type_table()[9]);
    assert(r@[10].view_label() == clause_type_table()[10]);
    assert(r@[11].view_label() == clause_type_table()[11]);
    assert(r@[12].view_label() == clause_type_table()[12]);
    assert(r@[13].view_label() == clause_type_table()[13]);
    assert(r@[14].view_label() == clause_type_table()[14]);
    assert(r@[15].view_label() == clause_type_table()[15]);
    assert(r@[16].view_label() == clause_type_table()[16]);
    assert(r@[17].view_label() == clause_type_table()[17]);
    assert(labels_view(r@) =~= clause_type_table());
    r
}

fn jurisdictions() -> (r: Vec<Label>)
    ensures
        labels_view(r@) == jurisdiction_table(),
{
    let mut r: Vec<Label> = Vec::new();
    r.push(label("South Africa", &["republic of south africa", "south africa", "laws of south africa", "popia"]));
    r.push(label("England and Wales", &["england and wales", "english law"]));
    r.push(label("United States", &["state of delaware", "state of new york", "state of california", "united states"]));
    r.push(label("Namibia", &["republic of namibia"]));
    r.push(label("Botswana", &["republic of botswana"]));
    assert(r@[0].view_label() == jurisdiction_table()[0]);
    assert(r@[1].view_label() == jurisdiction_table()[1]);
    assert(r@[2].view_label() == jurisdiction_table()[2]);
    assert(r@[3].view_label() == jurisdiction_table()[3]);
    assert(r@[4].view_label() == jurisdiction_table()[4]);
    assert(labels_view(r@) =~= jurisdiction_table());
    r
}

fn mentions_any_exec(text: &[char], keywords: &Vec<String>) -> (r: bool)
    ensures
        r == mentions_any(text@, views(keywords@)),
{
    let mut j: usize = 0;
    while j < keywords.len()
        invariant
            j <= keywords.len(),
            forall|k: int| 0 <= k < j ==> !chars::contains(text@, views(keywords@)[k]),
        decreases keywords.len() - j,
    {
        let kw = chars_of(keywords[j].as_str());
        assert(views(keywords@)[j as int] == keywords@[j as int]@);
        if contains_chars(text, kw.as_slice()) {
            return true;
        }
        j += 1;
    }
    false
}

/// The first label in `table` with a keyword that `text` contains.
fn first_label(table: &Vec<Label>, text: &[char]) -> (r: Option<String>)
    ensures
        match r {
            Some(s) => label_for(labels_view(table@), text@) == Some(s@),
            None => label_for(labels_view(table@), text@) is None,
        },
{
    let mut i: usize = 0;
    assert(labels_view(table@).skip(0) == labels_view(table@));
    while i < table.len()
        invariant
            i <= table.len(),
            label_for(labels_view(table@), text@) == label_for(labels_view(table@).skip(i as int), text@),
        decreases table.len() - i,
    {
        let ghost rest = labels_view(table@).skip(i as int);
        assert(rest[0] == table@[i as int].view_label());
        assert(rest.drop_first() == labels_view(table@).skip(i + 1));
        if mentions_any_exec(text, &table[i].keywords) {
            return Some(table[i].name.clone());
        }
        i += 1;
    }
    None
}

fn prefix_exec(v: &[char], n: usize) -> (r: Vec<char>)
    ensures
        r@ == prefix(v@, n as nat),
{
    if v.len() <= n {
        chars::slice_of(v, 0, v.len())
    } else {
        chars::slice_of(v, 0, n)
    }
}

/// Contract type from a file name and a document's text.
pub open spec fn contract_type_of(file_name: Seq<char>, full_text: Seq<char>) -> Option<Seq<char>> {
    match label_for(contract_type_table(), chars::lower(file_name)) {
        Some(l) => Some(l),
        None => label_for(contract_type_table(), chars::lower(prefix(full_text, 2000))),
    }
}

/// Clause type from a heading and a body.
pub open spec fn clause_type_of(heading: Seq<char>, body: Seq<char>) -> Option<Seq<char>> {
    match label_for(clause_type_table(), chars::lower(heading)) {
        Some(l) => Some(l),
        None => label_for(clause_type_table(), chars::lower(prefix(body, 300))),
    }
}

/// Jurisdiction from a document's text.
pub open spec fn jurisdiction_of(full_text: Seq<char>) -> Option<Seq<char>> {
    label_for(jurisdiction_table(), chars::lower(full_text))
}

/// Contract type from the file name (strongest signal), failing that from the
/// first 2000 characters of the text (title page), both ASCII-lowercased.
pub fn detect_contract_type(file_name: &str, full_text: &str) -> (r: Option<String>)
    ensures
        strs::opt_view(r) == contract_type_of(file_name@, full_text@),
{
    let table = contract_types();
    let name = to_lower(chars_of(file_name).as_slice());
    let text = chars_of(full_text);
    let head = to_lower(prefix_exec(text.as_slice(), 2000).as_slice());
    match first_label(&table, name.as_slice()) {
        Some(l) => Some(l),
        None => first_label(&table, head.as_slice()),
    }
}

/// Clause type from the heading, failing that from the first 300 characters
/// of the body, both ASCII-lowercased.
pub fn classify_clause_type(heading: &str, body: &str) -> (r: Option<String>)
    ensures
        strs::opt_view(r) == clause_type_of(heading@, body@),
{
    let table = clause_types();
    let h = to_lower(chars_of(heading).as_slice());
    let b = chars_of(body);
    let head = to_lower(prefix_exec(b.as_slice(), 300).as_slice());
    match first_label(&table, h.as_slice()) {
        Some(l) => Some(l),
        None => first_label(&table, head.as_slice()),
    }
}

/// Jurisdiction named anywhere in the (ASCII-lowercased) text.
pub fn detect_jurisdiction(full_text: &str) -> (r: Option<String>)
    ensures
        strs::opt_view(r) == jurisdiction_of(full_text@),
{
    let table = jurisdictions();
    let text = to_lower(chars_of(full_text).as_slice());
    first_label(&table, text.as_slice())
}

/// The first row of a table one of whose keywords the text holds gives the
/// label: rows before it are passed over, rows after it never looked at.
pub proof fn lemma_first_matching_label(table: LabelTable, text: Seq<char>, r: int)
    requires
        0 <= r < table.len(),
        mentions_any(text, table[r].1),
        forall|q: int| 0 <= q < r ==> !mentions_any(text, #[trigger] table[q].1),
    ensures
        label_for(table, text) == Some(table[r].0),
    decreases r,
{
    if r > 0 {
        assert(!mentions_any(text, table[0].1));
        assert forall|q: int| 0 <= q < r - 1 implies !mentions_any(text, #[trigger] table.drop_first()[q].1) by {
            assert(table.drop_first()[q] == table[q + 1]);
        }
        lemma_first_matching_label(table.drop_first(), text, r - 1);
    }
}

/// A text holding none of a table's keywords gets no label.
pub proof fn lemma_no_matching_label(table: LabelTable, text: Seq<char>)
    requires
        forall|q: int| 0 <= q < table.len() ==> !mentions_any(text, #[trigger] table[q].1),
    ensures
        label_for(table, text) is None,
    decreases table.len(),
{
    if table.len() > 0 {
        assert(!mentions_any(text, table[0].1));
        assert forall|q: int| 0 <= q < table.len() - 1 implies !mentions_any(text, #[trigger] table.drop_first()[q].1) by {
            assert(table.drop_first()[q] == table[q + 1]);
        }
        lemma_no_matching_label(table.drop_first(), text);
    }
}

/// The contract types detection knows, in the order it tries them, each
/// with the lowercase keywords that signal it.
pub proof fn lemma_contract_type_keywords()
    ensures
        ({
            let table = contract_type_table();
            &&& table.len() == 12
            &&& table[0].0 == "Share Purchase Agreement"@ && table[0].1 =~= seq!["share purchase"@, "sale of shares"@, "spa"@]
            &&& table[1].0 == "Non-Disclosure Agreement"@ && table[1].1 =~= seq!["non-disclosure"@, "nondisclosure"@, "confidentiality agreement"@, "nda"@]
            &&& table[2].0 == "Loan Agreement"@ && table[2].1 =~= seq!["loan agreement"@, "facility agreement"@, "credit agreement"@]
            &&& table[3].0 == "Lease Agreement"@ && table[3].1 =~= seq!["lease agreement"@, "agreement of lease"@, "rental agreement"@]
            &&& table[4].0 == "Employment Agreement"@ && table[4].1 =~= seq!["employment agreement"@, "contract of employment"@, "employment contract"@]
            &&& table[5].0 == "Service Agreement"@ && table[5].1 =~= seq!["services agreement"@, "service agreement"@, "master services"@, "consulting agreement"@]
            &&& table[6].0 == "Shareholders Agreement"@ && table[6].1 =~= seq!["shareholders agreement"@, "shareholders' agreement"@]
            &&& table[7].0 == "Sale Agreement"@ && table[7].1 =~= seq!["sale agreement"@, "purchase agreement"@, "sale of business"@]
            &&& table[8].0 == "Memorandum of Incorporation"@ && table[8].1 =~= seq!["memorandum of incorporation"@, "moi"@]
            &&& table[9].0 == "Joint Venture Agreement"@ && table[9].1 =~= seq!["joint venture"@]
            &&& table[10].0 == "Supply Agreement"@ && table[10].1 =~= seq!["supply agreement"@]
            &&& table[11].0 == "Licence Agreement"@ && table[11].1 =~= seq!["licence agreement"@, "license agreement"@, "licensing agreement"@]
        }),
{
}

/// The clause types classification knows, in the order it tries them, each
/// with the lowercase keywords that signal it.
pub proof fn lemma_clause_type_keywords()
    ensures
        ({
            let table = clause_type_table();
            &&& table.len() == 18
            &&& table[0].0 == "Definitions"@ && table[0].1 =~= seq!["definition"@, "interpretation"@]
            &&& table[1].0 == "Termination"@ && table[1].1 =~= seq!["termination"@, "terminate"@, "cancellation"@]
            &&& table[2].0 == "Confidentiality"@ && table[2].1 =~= seq!["confidential"@, "non-disclosure"@, "secrecy"@]
            &&& table[3].0 == "Payment"@ && table[3].1 =~= seq!["payment"@, "purchase price"@, "consideration"@, "fees"@, "remuneration"@, "interest rate"@]
            &&& table[4].0 == "Intellectual Property"@ && table[4].1 =~= seq!["intellectual property"@, "copyright"@, "trade mark"@, "trademark"@, "patent"@]
            &&& table[5].0 == "Indemnity"@ && table[5].1 =~= seq!["indemnif"@, "indemnity"@, "hold harmless"@]
            &&& table[6].0 == "Warranties"@ && table[6].1 =~= seq!["warrant"@, "representation"@]
            &&& table[7].0 == "Force Majeure"@ && table[7].1 =~= seq!["force majeure"@, "act of god"@, "vis major"@, "casus fortuitus"@]
            &&& table[8].0 == "Dispute Resolution"@ && table[8].1 =~= seq!["dispute"@, "arbitration"@, "mediation"@]
            &&& table[9].0 == "Governing Law"@ && table[9].1 =~= seq!["governing law"@, "governed by"@, "applicable law"@]
            &&& table[10].0 == "Notices"@ && table[10].1 =~= seq!["notice"@, "domicilium"@, "domicilia"@]
            &&& table[11].0 == "Breach"@ && table[11].1 =~= seq!["breach"@, "default"@, "remedies"@]
            &&& table[12].0 == "Restraint of Trade"@ && table[12].1 =~= seq!["restraint"@, "non-compete"@, "non-solicit"@]
            &&& table[13].0 == "Assignment"@ && table[13].1 =~= seq!["assignment"@, "cession"@, "delegation"@]
            &&& table[14].0 == "Limitation of Liability"@ && table[14].1 =~= seq!["limitation of liability"@, "liability cap"@, "exclusion of liability"@]
            &&& table[15].0 == "Data Protection"@ && table[15].1 =~= seq!["popia"@, "data protection"@, "personal information"@, "gdpr"@, "privacy"@]
            &&& table[16].0 == "Insurance"@ && table[16].1 =~= seq!["insurance"@, "insure"@]
            &&& table[17].0 == "General"@ && table[17].1 =~= seq!["whole agreement"@, "entire agreement"@, "severability"@, "counterparts"@, "variation"@]
        }),
{
}

/// The jurisdictions detection knows, in the order it tries them, each with
/// the lowercase phrases that signal them.
pub proof fn lemma_jurisdiction_keywords()
    ensures
        ({
            let table = jurisdiction_table();
            &&& table.len() == 5
            &&& table[0].0 == "South Africa"@ && table[0].1 =~= seq!["republic of south africa"@, "south africa"@, "laws of south africa"@, "popia"@]
            &&& table[1].0 == "England and Wales"@ && table[1].1 =~= seq!["england and wales"@, "english law"@]
            &&& table[2].0 == "United States"@ && table[2].1 =~= seq!["state of delaware"@, "state of new york"@, "state of california"@, "united states"@]
            &&& table[3].0 == "Namibia"@ && table[3].1 =~= seq!["republic of namibia"@]
            &&& table[4].0 == "Botswana"@ && table[4].1 =~= seq!["republic of botswana"@]
        }),
{
}

/// A file name naming a loan, facility or credit agreement, and no keyword
/// of a contract type tried before it, makes the document a Loan Agreement,
/// whatever its text says.
pub proof fn lemma_loan_agreement_by_name(file_name: Seq<char>, full_text: Seq<char>)
    requires
        ({
            let n = chars::lower(file_name);
            &&& chars::contains(n, "loan agreement"@) || chars::contains(n, "facility agreement"@)
                || chars::contains(n, "credit agreement"@)
            &&& !chars::contains(n, "share purchase"@) && !chars::contains(n, "sale of shares"@)
                && !chars::contains(n, "spa"@)
            &&& !chars::contains(n, "non-disclosure"@) && !chars::contains(n, "nondisclosure"@)
                && !chars::contains(n, "confidentiality agreement"@) && !chars::contains(n, "nda"@)
        }),
    ensures
        contract_type_of(file_name, full_text) == Some("Loan Agreement"@),
{
    lemma_contract_type_keywords();
    let table = contract_type_table();
    let n = chars::lower(file_name);
    assert(mentions_any(n, table[2].1)) by {
        if chars::contains(n, "loan agreement"@) {
            assert(table[2].1[0] == "loan agreement"@);
        } else if chars::contains(n, "facility agreement"@) {
            assert(table[2].1[1] == "facility agreement"@);
        } else {
            assert(table[2].1[2] == "credit agreement"@);
        }
    }
    assert forall|q: int| 0 <= q < 2 implies !mentions_any(n, #[trigger] table[q].1) by {
        if q == 0 {
            assert forall|j: int| 0 <= j < table[0].1.len() implies !chars::contains(n, table[0].1[j]) by {}
        } else {
            assert forall|j: int| 0 <= j < table[1].1.len() implies !chars::contains(n, table[1].1[j]) by {}
        }
    }
    lemma_first_matching_label(table, n, 2);
}

} // verus!
