//! `${variable}` expansion of match-pane templates.
use vstd::prelude::*;
use crate::bidi::{self, Orientation, orientation_spec, rtl};
use crate::text::{replace_all, replace_str, i32_to_string, int_text};

verus! {

pub struct MatchVars {
    pub id: i32,
    pub source_text: String,
    pub target_text: String,
    pub source_language: String,
    pub target_language: String,
    pub project_source_lang: String,
    pub project_target_lang: String,
    pub project_source_lang_code: String,
    pub project_target_lang_code: String,
    pub creation_id: String,
    pub changed_id: String,
    pub file_name: String,
    pub file_path: String,
    pub score: i32,
    pub no_stem_score: i32,
    pub adjusted_score: i32,
    pub fuzzy_flag: String,
}

/// Every variable but `${id}` and `${sourceText}`, substituted in this order.
pub open spec fn expand_spec(t: Seq<char>, v: MatchVars) -> Seq<char> {
    let t = replace_all(t, "${targetText}"@, v.target_text@);
    let t = replace_all(t, "${sourceLanguage}"@, v.source_language@);
    let t = replace_all(t, "${targetLanguage}"@, v.target_language@);
    let t = replace_all(t, "${projectSourceLang}"@, v.project_source_lang@);
    let t = replace_all(t, "${projectTargetLang}"@, v.project_target_lang@);
    let t = replace_all(t, "${projectSourceLangCode}"@, v.project_source_lang_code@);
    let t = replace_all(t, "${projectTargetLangCode}"@, v.project_target_lang_code@);
    let t = replace_all(t, "${creationId}"@, v.creation_id@);
    let t = replace_all(t, "${changedId}"@, v.changed_id@);
    let t = replace_all(t, "${initialCreationId}"@, v.creation_id@);
    let t = replace_all(t, "${fuzzyFlag}"@, v.fuzzy_flag@);
    let t = replace_all(t, "${fileName}"@, v.file_name@);
    let t = replace_all(t, "${filePath}"@, v.file_path@);
    let t = replace_all(t, "${score}"@, int_text(v.score as int));
    let t = replace_all(t, "${noStemScore}"@, int_text(v.no_stem_score as int));
    replace_all(t, "${adjustedScore}"@, int_text(v.adjusted_score as int))
}

/// Template with every variable substituted.
pub open spec fn apply_spec(t: Seq<char>, v: MatchVars) -> Seq<char> {
    let t = replace_all(expand_spec(t, v), "${id}"@, int_text(v.id as int));
    replace_all(t, "${sourceText}"@, v.source_text@)
}

pub fn expand_variables(template: &str, vars: &MatchVars) -> (r: String)
    ensures
        r@ == expand_spec(template@, *vars),
{
    let t = replace_str(template, "${targetText}", vars.target_text.as_str());
    let t = replace_str(t.as_str(), "${sourceLanguage}", vars.source_language.as_str());
    let t = replace_str(t.as_str(), "${targetLanguage}", vars.target_language.as_str());
    let t = replace_str(t.as_str(), "${projectSourceLang}", vars.project_source_lang.as_str());
    let t = replace_str(t.as_str(), "${projectTargetLang}", vars.project_target_lang.as_str());
    let t = replace_str(t.as_str(), "${projectSourceLangCode}", vars.project_source_lang_code.as_str());
    let t = replace_str(t.as_str(), "${projectTargetLangCode}", vars.project_target_lang_code.as_str());
    let t = replace_str(t.as_str(), "${creationId}", vars.creation_id.as_str());
    let t = replace_str(t.as_str(), "${changedId}", vars.changed_id.as_str());
    let t = replace_str(t.as_str(), "${initialCreationId}", vars.creation_id.as_str());
    let t = replace_str(t.as_str(), "${fuzzyFlag}", vars.fuzzy_flag.as_str());
    let t = replace_str(t.as_str(), "${fileName}", vars.file_name.as_str());
    let t = replace_str(t.as_str(), "${filePath}", vars.file_path.as_str());
    let s = i32_to_string(vars.score);
    let t = replace_str(t.as_str(), "${score}", s.as_str());
    let s = i32_to_string(vars.no_stem_score);
    let t = replace_str(t.as_str(), "${noStemScore}", s.as_str());
    let s = i32_to_string(vars.adjusted_score);
    replace_str(t.as_str(), "${adjustedScore}", s.as_str())
}

pub fn apply(template: &str, vars: &MatchVars) -> (r: String)
    ensures
        r@ == apply_spec(template@, *vars),
{
    let t = expand_variables(template, vars);
    let s = i32_to_string(vars.id);
    let t = replace_str(t.as_str(), "${id}", s.as_str());
    replace_str(t.as_str(), "${sourceText}", vars.source_text.as_str())
}

/// Field-by-field copy of a variable set.
pub fn copy_vars(v: &MatchVars) -> (r: MatchVars)
    ensures
        r == *v,
{
    MatchVars {
        id: v.id,
        source_text: v.source_text.clone(),
        target_text: v.target_text.clone(),
        source_language: v.source_language.clone(),
        target_language: v.target_language.clone(),
        project_source_lang: v.project_source_lang.clone(),
        project_target_lang: v.project_target_lang.clone(),
        project_source_lang_code: v.project_source_lang_code.clone(),
        project_target_lang_code: v.project_target_lang_code.clone(),
        creation_id: v.creation_id.clone(),
        changed_id: v.changed_id.clone(),
        file_name: v.file_name.clone(),
        file_path: v.file_path.clone(),
        score: v.score,
        no_stem_score: v.no_stem_score,
        adjusted_score: v.adjusted_score,
        fuzzy_flag: v.fuzzy_flag.clone(),
    }
}

/// `text` wrapped in embedding marks for its direction.
pub open spec fn wrap_dir(text: Seq<char>, is_rtl: bool) -> Seq<char> {
    if is_rtl {
        seq!['\u{202b}'] + text + seq!['\u{202c}']
    } else {
        seq!['\u{202a}'] + text + seq!['\u{202c}']
    }
}

/// Like `apply`, but with mixed directions each text is wrapped in embedding marks.
pub fn apply_bidi(template: &str, vars: &MatchVars, source_lang: &str, target_lang: &str, locale: &str) -> (r: String)
    ensures
        orientation_spec(Some(source_lang@), Some(target_lang@), locale@) != Orientation::Differ
            ==> r@ == apply_spec(template@, *vars),
        orientation_spec(Some(source_lang@), Some(target_lang@), locale@) == Orientation::Differ
            ==> exists|v: MatchVars|
                v.source_text@ == wrap_dir(vars.source_text@, rtl(source_lang@))
                && v.target_text@ == wrap_dir(vars.target_text@, rtl(target_lang@))
                && v.id == vars.id && v.score == vars.score && v.no_stem_score == vars.no_stem_score
                && v.adjusted_score == vars.adjusted_score
                && v.source_language == vars.source_language && v.target_language == vars.target_language
                && v.project_source_lang == vars.project_source_lang
                && v.project_target_lang == vars.project_target_lang
                && v.project_source_lang_code == vars.project_source_lang_code
                && v.project_target_lang_code == vars.project_target_lang_code
                && v.creation_id == vars.creation_id && v.changed_id == vars.changed_id
                && v.file_name == vars.file_name && v.file_path == vars.file_path
                && v.fuzzy_flag == vars.fuzzy_flag
                && r@ == apply_spec(template@, v),
{
    let mut v = copy_vars(vars);
    match bidi::orientation_type(Some(source_lang), Some(target_lang), locale) {
        Orientation::Differ => {
            if bidi::is_rtl(source_lang) {
                v.source_text = bidi::add_rtl_bidi_around(v.source_text.as_str());
            } else {
                v.source_text = bidi::add_ltr_bidi_around(v.source_text.as_str());
            }
            if bidi::is_rtl(target_lang) {
                v.target_text = bidi::add_rtl_bidi_around(v.target_text.as_str());
            } else {
                v.target_text = bidi::add_ltr_bidi_around(v.target_text.as_str());
            }
        },
        _ => {},
    }
    apply(template, &v)
}

/// The fixed sample variables used to preview templates.
pub fn mock_near_string() -> (r: MatchVars)
    ensures
        r.id == 2 && r.score == 20 && r.no_stem_score == 40 && r.adjusted_score == 60,
        r.source_text@ == "mock source text"@,
        r.target_text@ == "mock target text"@,
        r.source_language@ == "mock source language"@,
        r.target_language@ == "mock target language"@,
        r.project_source_lang@ == "pl"@ && r.project_target_lang@ == "pl"@,
        r.project_source_lang_code@ == "pl"@ && r.project_target_lang_code@ == "pl"@,
        r.creation_id@ == "mock creator"@,
        r.changed_id@ == "mock modifier"@,
        r.file_name@ == "mock testing project"@,
        r.file_path@ == "mock testing project"@,
        r.fuzzy_flag@.len() == 0,
{
    MatchVars {
        id: 2,
        source_text: "mock source text".to_owned(),
        target_text: "mock target text".to_owned(),
        source_language: "mock source language".to_owned(),
        target_language: "mock target language".to_owned(),
        project_source_lang: "pl".to_owned(),
        project_target_lang: "pl".to_owned(),
        project_source_lang_code: "pl".to_owned(),
        project_target_lang_code: "pl".to_owned(),
        creation_id: "mock creator".to_owned(),
        changed_id: "mock modifier".to_owned(),
        file_name: "mock testing project".to_owned(),
        file_path: "mock testing project".to_owned(),
        score: 20,
        no_stem_score: 40,
        adjusted_score: 60,
        fuzzy_flag: String::new(),
    }
}

} // verus!
