//! What the interface does with what its user types: reading clauses (the Prolog-like syntax
//! first, French sentences when that fails), adding them to the knowledge base, looking for a
//! proof of a goal, and turning the picture of a proof into a data URL.
use vstd::prelude::*;
use crate::text::push_str;
use crate::types::{
    TermModel, RuleModel, KnowledgeBase, KnowledgeBaseModel, ProofTree, with_rule, no_duplicates,
};
use crate::parser::parser::{parse_with_error, parse_result};
use crate::parser::parser2::{parse_naturel_fr, naturel_result};
use crate::engine::forward::add_facts_spec;
use crate::engine::backward::{backward_chain, backward_spec, search_ends};

verus! {

broadcast use vstd::std_specs::vec::group_vec_axioms;

/// What reading a text gives: the clauses of the Prolog-like syntax when it reads without
/// error, else what the French reader gives.
pub open spec fn read_input_spec(input: Seq<char>) -> Result<KnowledgeBaseModel, Seq<char>> {
    let (kb, err) = parse_result(input);
    match err {
        Some(_) => naturel_result(input),
        None => Ok(kb),
    }
}

pub open spec fn kb_result_view(r: Result<KnowledgeBase, String>) -> Result<KnowledgeBaseModel, Seq<char>> {
    match r {
        Ok(kb) => Ok(kb@),
        Err(e) => Err(e@),
    }
}

/// Reads the clauses of a text, as `read_input_spec` says.
pub fn parse(input: &str) -> (r: Result<KnowledgeBase, String>)
    ensures
        kb_result_view(r) == read_input_spec(input@),
{
    match parse_with_error(input) {
        (_, Some(_)) => parse_naturel_fr(input),
        (kb, None) => Ok(kb),
    }
}

/// The rules with each new one appended in order, unless it is already there.
pub open spec fn add_rules_spec(rules: Seq<RuleModel>, new: Seq<RuleModel>) -> Seq<RuleModel>
    decreases new.len(),
{
    if new.len() == 0 {
        rules
    } else {
        with_rule(add_rules_spec(rules, new.drop_last()), new.last())
    }
}

/// The knowledge base with the facts, then the rules, of `new` added to it.
pub open spec fn merged(kb: KnowledgeBaseModel, new: KnowledgeBaseModel) -> KnowledgeBaseModel {
    KnowledgeBaseModel {
        facts: add_facts_spec(kb.facts, new.facts),
        rules: add_rules_spec(kb.rules, new.rules),
    }
}

/// Reads the text and adds its facts, then its rules, to the knowledge base. Gives the error
/// message when the text cannot be read, and then leaves the knowledge base unchanged.
pub fn parse_button(to_parse: &str, kb: &mut KnowledgeBase) -> (r: Option<String>)
    ensures
        (match read_input_spec(to_parse@) {
            Ok(nb) => r is None && final(kb)@ == merged(old(kb)@, nb),
            Err(e) => r matches Some(m) && m@ == e && final(kb)@ == old(kb)@,
        }),
{
    let nb = match parse(to_parse) {
        Ok(k) => k,
        Err(e) => {
            return Some(e);
        },
    };
    let ghost start = kb@;
    let ghost nv = nb@;
    let mut i: usize = 0;
    proof {
        assert(nv.facts.take(0) =~= Seq::<TermModel>::empty());
    }
    while i < nb.facts.len()
        invariant
            i <= nb.facts.len(),
            nv == nb@,
            nv.facts.len() == nb.facts@.len(),
            kb@.rules == start.rules,
            kb@.facts == add_facts_spec(start.facts, nv.facts.take(i as int)),
        decreases nb.facts.len() - i,
    {
        proof {
            assert(nv.facts.take(i + 1).drop_last() =~= nv.facts.take(i as int));
            assert(nv.facts.take(i + 1).last() == nb.facts@[i as int]@);
        }
        kb.add_fact(nb.facts[i].clone());
        i += 1;
    }
    let mut j: usize = 0;
    proof {
        assert(nv.facts.take(nv.facts.len() as int) =~= nv.facts);
        assert(nv.rules.take(0) =~= Seq::<RuleModel>::empty());
    }
    while j < nb.rules.len()
        invariant
            j <= nb.rules.len(),
            nv == nb@,
            nv.rules.len() == nb.rules@.len(),
            kb@.facts == add_facts_spec(start.facts, nv.facts),
            kb@.rules == add_rules_spec(start.rules, nv.rules.take(j as int)),
        decreases nb.rules.len() - j,
    {
        proof {
            assert(nv.rules.take(j + 1).drop_last() =~= nv.rules.take(j as int));
            assert(nv.rules.take(j + 1).last() == nb.rules@[j as int]@);
        }
        kb.add_rule(nb.rules[j].clone());
        j += 1;
    }
    proof {
        assert(nv.rules.take(nv.rules.len() as int) =~= nv.rules);
    }
    None
}

/// Adding facts one by one, each unless already known, keeps them free of duplicates.
pub proof fn law_add_facts_keeps_no_duplicates(facts: Seq<TermModel>, new: Seq<TermModel>)
    requires
        no_duplicates(facts),
    ensures
        no_duplicates(add_facts_spec(facts, new)),
    decreases new.len(),
{
    if new.len() > 0 {
        law_add_facts_keeps_no_duplicates(facts, new.drop_last());
        crate::types::law_adding_keeps_no_duplicates(add_facts_spec(facts, new.drop_last()), new.last());
    }
}

/// Adding rules one by one, each unless already known, keeps them free of duplicates.
pub proof fn law_add_rules_keeps_no_duplicates(rules: Seq<RuleModel>, new: Seq<RuleModel>)
    requires
        no_duplicates(rules),
    ensures
        no_duplicates(add_rules_spec(rules, new)),
    decreases new.len(),
{
    if new.len() > 0 {
        law_add_rules_keeps_no_duplicates(rules, new.drop_last());
        crate::types::law_adding_keeps_no_duplicates(add_rules_spec(rules, new.drop_last()), new.last());
    }
}

/// Adding what a text holds to a knowledge base without duplicates leaves it without
/// duplicates.
pub proof fn law_merged_keeps_well_formed(kb: KnowledgeBaseModel, new: KnowledgeBaseModel)
    requires
        kb.well_formed(),
    ensures
        merged(kb, new).well_formed(),
{
    law_add_facts_keeps_no_duplicates(kb.facts, new.facts);
    law_add_rules_keeps_no_duplicates(kb.rules, new.rules);
}

/// What looking for a proof of a typed goal gives.
pub enum ProofOutcome {
    /// The goal is proved; here is the proof.
    Proved(ProofTree),
    /// No proof was found.
    NotProvable,
    /// The text holds no fact to prove.
    NoFact,
    /// The text could not be read; here is the message.
    ReadError(String),
}

/// What looking for a proof of the first fact of the text gives: the reading error, no fact,
/// the proof that backward chaining finds, or none.
pub open spec fn back_proof_spec(o: ProofOutcome, input: Seq<char>, kb: KnowledgeBaseModel) -> bool {
    match read_input_spec(input) {
        Err(e) => o matches ProofOutcome::ReadError(m) && m@ == e,
        Ok(k) => if k.facts.len() == 0 {
            o is NoFact
        } else {
            match backward_spec(k.facts[0], kb) {
                Some(t) => o matches ProofOutcome::Proved(p) && p@ == t,
                None => o is NotProvable,
            }
        },
    }
}

/// The search for a proof of the first fact of the text, if the text reads and holds one,
/// ends.
pub open spec fn back_proof_ends(input: Seq<char>, kb: KnowledgeBaseModel) -> bool {
    match read_input_spec(input) {
        Ok(k) => k.facts.len() > 0 ==> search_ends(k.facts[0], kb),
        Err(_) => true,
    }
}

/// Looks for a proof of the first fact of the text: nothing for an empty text, else the
/// outcome that `back_proof_spec` describes. The search must end.
pub fn back_proof(backwards: &str, kb: &KnowledgeBase) -> (r: Option<ProofOutcome>)
    requires
        back_proof_ends(backwards@, kb@),
    ensures
        r is None <==> backwards@.len() == 0,
        r matches Some(o) ==> back_proof_spec(o, backwards@, kb@),
{
    if backwards.is_empty() {
        return None;
    }
    let k = match parse(backwards) {
        Ok(k) => k,
        Err(e) => {
            return Some(ProofOutcome::ReadError(e));
        },
    };
    if k.facts.len() == 0 {
        return Some(ProofOutcome::NoFact);
    }
    let term = &k.facts[0].term;
    match backward_chain(term, kb) {
        Some(t) => Some(ProofOutcome::Proved(t)),
        None => Some(ProofOutcome::NotProvable),
    }
}

/// The base64 text of the bytes, with the standard alphabet and `=` padding.
pub uninterp spec fn base64_standard(bytes: Seq<u8>) -> Seq<char>;

/// `base64::engine::general_purpose::STANDARD.encode`: the bytes in base64 with the standard
/// alphabet and `=` padding. Its text is named `base64_standard`; its length, as the crate's
/// `encoded_len` computes it, is four characters for each started group of three bytes. The
/// crate panics when that length overflows a `usize`, which `requires` leaves out.
#[verifier::external_body]
fn base64_encode(bytes: &[u8]) -> (r: String)
    requires
        4 * ((bytes@.len() + 2) / 3) <= usize::MAX,
    ensures
        r@ == base64_standard(bytes@),
        r@.len() == 4 * ((bytes@.len() + 2) / 3),
{
    base64::Engine::encode(&base64::engine::general_purpose::STANDARD, bytes)
}

/// The data URL of a PNG picture: `data:image/png;base64,` then its bytes in base64.
pub fn get_img_src(png: &[u8]) -> (r: String)
    requires
        4 * ((png@.len() + 2) / 3) <= usize::MAX,
    ensures
        r@ == "data:image/png;base64,"@ + base64_standard(png@),
{
    let b64 = base64_encode(png);
    let mut out = String::new();
    push_str(&mut out, "data:image/png;base64,");
    push_str(&mut out, b64.as_str());
    out
}

/// The PNG file that the `image` crate writes of an RGB picture of `width` by `height`
/// pixels, given as three bytes per pixel, row by row.
pub uninterp spec fn png_rgb(width: u32, height: u32, pixels: Seq<u8>) -> Seq<u8>;

/// `ImageBuffer::<Rgb<u8>, Vec<u8>>::from_raw`, then `write_to` an in-memory `Cursor` as
/// `ImageFormat::Png`. `from_raw` refuses a buffer shorter than three bytes per pixel; the
/// `png` encoder refuses a width or a height of 0; writing into memory does not fail. The
/// bytes written are named `png_rgb`.
#[verifier::external_body]
fn encode_png(width: u32, height: u32, pixels: Vec<u8>) -> (r: Option<Vec<u8>>)
    ensures
        r is Some == (width > 0 && height > 0 && 3 * width * height <= pixels@.len()),
        r matches Some(b) ==> b@ == png_rgb(width, height, pixels@),
{
    let img = image::ImageBuffer::<image::Rgb<u8>, Vec<u8>>::from_raw(width, height, pixels)?;
    let mut bytes: Vec<u8> = Vec::new();
    match img.write_to(&mut std::io::Cursor::new(&mut bytes), image::ImageFormat::Png) {
        Ok(()) => Some(bytes),
        Err(_) => None,
    }
}

/// The data URL of an RGB picture of `width` by `height` pixels (three bytes per pixel, row
/// by row): its PNG file in base64. `None` when a side is 0, when the buffer is too short for
/// the picture, or when the base64 text of the PNG file would be too long for a `usize`.
pub fn picture_src(width: u32, height: u32, pixels: Vec<u8>) -> (r: Option<String>)
    ensures
        r is Some <==> width > 0 && height > 0 && 3 * width * height <= pixels@.len() && png_rgb(
            width,
            height,
            pixels@,
        ).len() / 3 < usize::MAX / 4,
        r matches Some(u) ==> u@ == "data:image/png;base64,"@ + base64_standard(png_rgb(width, height, pixels@)),
{
    let ghost px = pixels@;
    let png = match encode_png(width, height, pixels) {
        Some(b) => b,
        None => {
            return None;
        },
    };
    let n = png.len();
    if n / 3 >= usize::MAX / 4 {
        return None;
    }
    proof {
        assert(4 * ((n + 2) / 3) <= usize::MAX) by (nonlinear_arith)
            requires
                n / 3 < usize::MAX / 4,
        ;
    }
    Some(get_img_src(png.as_slice()))
}

} // verus!
