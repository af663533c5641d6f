//! The formatting pipeline after key ordering and pretty-printing.
use vstd::prelude::*;
use crate::linebreak::{
    apply_in_field_linebreaks, apply_linebreaks, compute_in_field_keep_map, in_field_spec,
    keep_map_spec, linebreaks_spec, merge_linebreak_fields, merged_rules, rmodel,
};
use crate::models::LineBreakSpec;

verus! {

/// The outcome of formatting one file.
pub struct FormatResult {
    pub file: String,
    pub changed: bool,
    pub preview: Option<String>,
    pub original: Option<String>,
}

/// The between-groups flag: the configured override, else the policy's, else off.
pub open spec fn between_flag(over: Option<bool>, lb: Option<&LineBreakSpec>) -> bool {
    match over {
        Some(b) => b,
        None => match lb {
            Some(l) => match l.between_groups {
                Some(b) => b,
                None => false,
            },
            None => false,
        },
    }
}

/// The text of a reordered document after the line-break passes: none when
/// strict line breaks are off; else the between-groups pass, then the
/// in-field pass guided by the text as read.
pub open spec fn finish_spec(
    pretty: Seq<char>,
    original: Seq<char>,
    top: Seq<Vec<String>>,
    lb: Option<&LineBreakSpec>,
    strict: bool,
    between_override: Option<bool>,
    before_override: Seq<(String, String)>,
    in_override: Seq<(String, String)>,
) -> Seq<char> {
    if !strict {
        pretty
    } else {
        let fields = merged_rules(
            match lb {
                Some(l) => rmodel(l.before_fields@),
                None => Seq::empty(),
            },
            before_override,
            before_override.len(),
        );
        let in_fields = merged_rules(
            match lb {
                Some(l) => rmodel(l.in_fields@),
                None => Seq::empty(),
            },
            in_override,
            in_override.len(),
        );
        let s = linebreaks_spec(pretty, top, between_flag(between_override, lb), fields);
        in_field_spec(s, in_fields, keep_map_spec(original, in_fields))
    }
}

/// Applies the line-break policy to the pretty-printed text of a reordered
/// document, using the text as read to place blank lines inside fields.
pub fn finish_format(
    pretty: String,
    original: &str,
    top: &Vec<Vec<String>>,
    lb: Option<&LineBreakSpec>,
    strict: bool,
    between_override: Option<bool>,
    before_override: &Vec<(String, String)>,
    in_override: &Vec<(String, String)>,
) -> (r: String)
    ensures
        r@ == finish_spec(
            pretty@,
            original@,
            top@,
            lb,
            strict,
            between_override,
            before_override@,
            in_override@,
        ),
{
    if !strict {
        return pretty;
    }
    let between = match between_override {
        Some(b) => b,
        None => match lb {
            Some(l) => match l.between_groups {
                Some(b) => b,
                None => false,
            },
            None => false,
        },
    };
    let fields = merge_linebreak_fields(
        match lb {
            Some(l) => Some(&l.before_fields),
            None => None,
        },
        before_override,
    );
    let in_fields = merge_linebreak_fields(
        match lb {
            Some(l) => Some(&l.in_fields),
            None => None,
        },
        in_override,
    );
    let s = apply_linebreaks(pretty, top, between, &fields);
    let keep = compute_in_field_keep_map(original, &in_fields);
    apply_in_field_linebreaks(s, &in_fields, &keep)
}

} // verus!
