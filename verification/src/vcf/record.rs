//! Parsing one raw record line: eight fixed tab-separated columns, then
//! the genotype columns.

use vstd::prelude::*;

use crate::text::{find_char, lemma_find_char, parse_i32_str, split_spec, split_str, str_eq};
use crate::vcf::info::{info_failure, keys_of, parse_info, Info, InfoFailure};

verus! {

/// An error when a raw record fails to parse.
#[derive(Clone, Debug, PartialEq)]
pub enum ParseError {
    /// The chromosome is invalid.
    InvalidChromosome,
    /// The position is invalid.
    InvalidPosition,
    /// The IDs are invalid.
    InvalidIds,
    /// The reference bases are invalid.
    InvalidReferenceBases,
    /// The alternate bases are invalid.
    InvalidAlternateBases,
    /// The quality score is invalid.
    InvalidQualityScore,
    /// The filters are invalid.
    InvalidFilters,
    /// The info column is invalid.
    InvalidInfo(crate::vcf::info::ParseError),
    /// The genotype columns are invalid.
    InvalidGenotypes,
}

/// The chromosome a record aligns to: a named sequence, or a symbolic
/// one written in angle brackets.
#[derive(Clone, Debug, PartialEq)]
pub enum Chromosome {
    /// A sequence name.
    Name(String),
    /// A symbol, without its angle brackets.
    Symbol(String),
}

/// Which filters a record passed or failed.
#[derive(Clone, Debug, PartialEq)]
pub enum Filters {
    /// All filters passed.
    Pass,
    /// The record failed these filters.
    Fail(Vec<String>),
}

/// The genotype columns: the format keys, then one value set per sample.
#[derive(Clone, Debug, PartialEq)]
pub struct Genotypes {
    /// The colon-separated format keys.
    pub keys: Vec<String>,
    /// Each sample's colon-separated values.
    pub samples: Vec<Vec<String>>,
}

/// One parsed record.
#[derive(Clone, Debug, PartialEq)]
pub struct Record {
    /// The chromosome.
    pub chromosome: Chromosome,
    /// The 1-based position.
    pub position: i32,
    /// The record's identifiers; empty where the column is missing.
    pub ids: Vec<String>,
    /// The reference bases.
    pub reference_bases: String,
    /// The alternate base strings; empty where the column is missing.
    pub alternate_bases: Vec<String>,
    /// The quality score's validated text; nothing where missing.
    pub quality_score: Option<String>,
    /// The filters; nothing where the column is missing.
    pub filters: Option<Filters>,
    /// The info column; empty where missing.
    pub info: Info,
    /// The genotype columns; empty where missing.
    pub genotypes: Genotypes,
}

/// What remains of `s` after `n` tab-separated fields are taken.
pub open spec fn after_fields(s: Seq<char>, n: nat) -> Seq<char>
    decreases n,
{
    if n == 0 {
        s
    } else {
        match find_char(s, '\t') {
            None => seq![],
            Some(i) => after_fields(s.skip(i + 1), (n - 1) as nat),
        }
    }
}

/// The `n`th tab-separated field of `s`; a field past the end is empty.
pub open spec fn field_at(s: Seq<char>, n: nat) -> Seq<char> {
    let r = after_fields(s, n);
    match find_char(r, '\t') {
        None => r,
        Some(i) => r.take(i),
    }
}

/// Takes the field at `pos` and hands back the position after its
/// delimiter — or the end of the string, where no delimiter remains.
pub fn next_field(s: &str, pos: usize) -> (r: (String, usize))
    requires
        pos <= s@.len(),
    ensures
        pos <= r.1 <= s@.len(),
        ({
            let rest = s@.skip(pos as int);
            match find_char(rest, '\t') {
                None => r.0@ == rest && r.1 == s@.len(),
                Some(i) => r.0@ == rest.take(i) && r.1 == pos + i + 1 && s@.skip(r.1 as int)
                    == rest.skip(i + 1),
            }
        }),
{
    let len = s.unicode_len();
    let mut i: usize = pos;
    while i < len
        invariant
            pos <= i <= len,
            len == s@.len(),
            forall|j: int| pos <= j < i ==> s@[j] != '\t',
        decreases len - i,
    {
        if s.get_char(i) == '\t' {
            proof {
                let rest = s@.skip(pos as int);
                assert forall|j: int| 0 <= j < i - pos implies rest[j] != '\t' by {
                    assert(rest[j] == s@[pos + j]);
                }
                assert(rest[i - pos] == s@[i as int]);
                crate::text::lemma_find_char_prefix(rest, '\t', i - pos);
            }
            let field = s.substring_char(pos, i);
            proof {
                assert(field@ =~= s@.skip(pos as int).take(i - pos));
                assert(s@.skip(i + 1) =~= s@.skip(pos as int).skip(i - pos + 1));
            }
            return (field.to_owned(), i + 1);
        }
        i += 1;
    }
    proof {
        let rest = s@.skip(pos as int);
        assert forall|j: int| 0 <= j < rest.len() implies rest[j] != '\t' by {
            assert(rest[j] == s@[pos + j]);
        }
        crate::text::lemma_find_char_prefix(rest, '\t', rest.len() as int);
    }
    let field = s.substring_char(pos, len);
    proof {
        assert(field@ =~= s@.skip(pos as int));
    }
    (field.to_owned(), len)
}

/// Whether `c` is the chromosome the raw column denotes: a non-empty
/// name, or a non-empty symbol in angle brackets.
pub open spec fn chromosome_ok(p: Seq<char>, c: Chromosome) -> bool {
    match c {
        Chromosome::Name(n) => p.len() > 0 && p[0] != '<' && n@ == p,
        Chromosome::Symbol(n) => p.len() > 2 && p[0] == '<' && p.last() == '>' && n@ == p.subrange(
            1,
            p.len() - 1,
        ),
    }
}

/// Whether a raw chromosome column can stand: non-empty, and an opening
/// angle bracket must have a matching closing one around a non-empty
/// symbol.
pub open spec fn chromosome_valid(p: Seq<char>) -> bool {
    &&& p.len() > 0
    &&& (p[0] == '<' ==> p.len() > 2 && p.last() == '>')
}

/// Parses the chromosome column.
pub fn parse_chromosome(s: &str) -> (r: Result<Chromosome, ParseError>)
    ensures
        r is Ok <==> chromosome_valid(s@),
        match r {
            Ok(c) => chromosome_ok(s@, c),
            Err(e) => e == ParseError::InvalidChromosome,
        },
{
    let len = s.unicode_len();
    if len == 0 {
        return Err(ParseError::InvalidChromosome);
    }
    if s.get_char(0) == '<' {
        if len < 3 {
            return Err(ParseError::InvalidChromosome);
        }
        if s.get_char(len - 1) != '>' {
            return Err(ParseError::InvalidChromosome);
        }
        let inner = s.substring_char(1, len - 1);
        Ok(Chromosome::Symbol(inner.to_owned()))
    } else {
        Ok(Chromosome::Name(s.to_owned()))
    }
}

/// Whether `ids` are the identifiers the raw column denotes: its
/// semicolon-separated pieces, each non-empty.
pub open spec fn ids_ok(p: Seq<char>, ids: Seq<String>) -> bool {
    let pieces = split_spec(p, ';');
    &&& ids.len() == pieces.len()
    &&& forall|i: int|
        0 <= i < pieces.len() ==> (#[trigger] pieces[i]).len() > 0 && ids[i]@ == pieces[i]
}

/// Whether a raw identifiers column can stand: every semicolon-separated
/// piece is non-empty.
pub open spec fn pieces_nonempty(p: Seq<char>, d: char) -> bool {
    forall|i: int| 0 <= i < split_spec(p, d).len() ==> (#[trigger] split_spec(p, d)[i]).len() > 0
}

/// Parses the identifiers column.
pub fn parse_ids(s: &str) -> (r: Result<Vec<String>, ParseError>)
    ensures
        r is Ok <==> pieces_nonempty(s@, ';'),
        match r {
            Ok(ids) => ids_ok(s@, ids@),
            Err(e) => e == ParseError::InvalidIds,
        },
{
    let pieces = split_str(s, ';');
    let ghost pv = split_spec(s@, ';');
    let mut ids: Vec<String> = Vec::new();
    let mut i: usize = 0;
    while i < pieces.len()
        invariant
            i <= pieces@.len(),
            pv == split_spec(s@, ';'),
            pv == pieces@.map_values(|x: String| x@),
            ids@.len() == i,
            forall|j: int|
                0 <= j < i ==> (#[trigger] pv[j]).len() > 0 && ids@[j]@ == pv[j],
        decreases pieces@.len() - i,
    {
        proof {
            assert(pv[i as int] == pieces@[i as int]@);
        }
        if pieces[i].as_str().is_empty() {
            proof {
                assert(pv[i as int].len() == 0);
            }
            return Err(ParseError::InvalidIds);
        }
        ids.push(pieces[i].clone());
        i += 1;
    }
    Ok(ids)
}

/// Whether `b` are the reference bases the raw column denotes: a
/// non-empty run of the base letters.
pub open spec fn reference_bases_ok(p: Seq<char>, b: Seq<char>) -> bool {
    &&& b == p
    &&& p.len() > 0
    &&& forall|i: int| 0 <= i < p.len() ==> is_base(#[trigger] p[i])
}

/// Whether `c` is a reference base letter.
pub open spec fn is_base(c: char) -> bool {
    c == 'A' || c == 'C' || c == 'G' || c == 'T' || c == 'N'
}

/// Whether a raw reference bases column can stand: a non-empty run of
/// the base letters.
pub open spec fn reference_bases_valid(p: Seq<char>) -> bool {
    &&& p.len() > 0
    &&& forall|i: int| 0 <= i < p.len() ==> is_base(#[trigger] p[i])
}

/// Parses the reference bases column.
pub fn parse_reference_bases(s: &str) -> (r: Result<String, ParseError>)
    ensures
        r is Ok <==> reference_bases_valid(s@),
        match r {
            Ok(b) => reference_bases_ok(s@, b@),
            Err(e) => e == ParseError::InvalidReferenceBases,
        },
{
    let len = s.unicode_len();
    if len == 0 {
        return Err(ParseError::InvalidReferenceBases);
    }
    let mut i: usize = 0;
    while i < len
        invariant
            i <= len,
            len == s@.len(),
            forall|j: int| 0 <= j < i ==> is_base(#[trigger] s@[j]),
        decreases len - i,
    {
        let c = s.get_char(i);
        if !(c == 'A' || c == 'C' || c == 'G' || c == 'T' || c == 'N') {
            proof {
                assert(!is_base(s@[i as int]));
            }
            return Err(ParseError::InvalidReferenceBases);
        }
        i += 1;
    }
    Ok(s.to_owned())
}

/// Whether `alts` are the alternate bases the raw column denotes: its
/// comma-separated pieces, each non-empty.
pub open spec fn alternate_bases_ok(p: Seq<char>, alts: Seq<String>) -> bool {
    let pieces = split_spec(p, ',');
    &&& alts.len() == pieces.len()
    &&& forall|i: int|
        0 <= i < pieces.len() ==> (#[trigger] pieces[i]).len() > 0 && alts[i]@ == pieces[i]
}

/// Parses the alternate bases column.
pub fn parse_alternate_bases(s: &str) -> (r: Result<Vec<String>, ParseError>)
    ensures
        r is Ok <==> pieces_nonempty(s@, ','),
        match r {
            Ok(alts) => alternate_bases_ok(s@, alts@),
            Err(e) => e == ParseError::InvalidAlternateBases,
        },
{
    let pieces = split_str(s, ',');
    let ghost pv = split_spec(s@, ',');
    let mut alts: Vec<String> = Vec::new();
    let mut i: usize = 0;
    while i < pieces.len()
        invariant
            i <= pieces@.len(),
            pv == split_spec(s@, ','),
            pv == pieces@.map_values(|x: String| x@),
            alts@.len() == i,
            forall|j: int|
                0 <= j < i ==> (#[trigger] pv[j]).len() > 0 && alts@[j]@ == pv[j],
        decreases pieces@.len() - i,
    {
        proof {
            assert(pv[i as int] == pieces@[i as int]@);
        }
        if pieces[i].as_str().is_empty() {
            proof {
                assert(pv[i as int].len() == 0);
            }
            return Err(ParseError::InvalidAlternateBases);
        }
        alts.push(pieces[i].clone());
        i += 1;
    }
    Ok(alts)
}

/// Whether `f` are the filters the raw column denotes: the pass marker,
/// or the semicolon-separated names of the failed filters, each
/// non-empty.
pub open spec fn filters_ok(p: Seq<char>, f: Filters) -> bool {
    match f {
        Filters::Pass => p == seq!['P', 'A', 'S', 'S'],
        Filters::Fail(ids) => {
            let pieces = split_spec(p, ';');
            &&& p != seq!['P', 'A', 'S', 'S']
            &&& ids@.len() == pieces.len()
            &&& forall|i: int|
                0 <= i < pieces.len() ==> (#[trigger] pieces[i]).len() > 0 && ids@[i]@ == pieces[i]
        },
    }
}

/// Whether a raw filters column can stand: the pass marker, or failed
/// filter names, each non-empty.
pub open spec fn filters_valid(p: Seq<char>) -> bool {
    ||| p == seq!['P', 'A', 'S', 'S']
    ||| pieces_nonempty(p, ';')
}

/// Parses the filters column.
pub fn parse_filters(s: &str) -> (r: Result<Filters, ParseError>)
    ensures
        r is Ok <==> filters_valid(s@),
        match r {
            Ok(f) => filters_ok(s@, f),
            Err(e) => e == ParseError::InvalidFilters,
        },
{
    proof {
        reveal_strlit("PASS");
        assert("PASS"@ =~= seq!['P', 'A', 'S', 'S']);
    }
    if str_eq(s, "PASS") {
        return Ok(Filters::Pass);
    }
    let pieces = split_str(s, ';');
    let ghost pv = split_spec(s@, ';');
    let mut ids: Vec<String> = Vec::new();
    let mut i: usize = 0;
    while i < pieces.len()
        invariant
            i <= pieces@.len(),
            pv == split_spec(s@, ';'),
            pv == pieces@.map_values(|x: String| x@),
            ids@.len() == i,
            s@ != seq!['P', 'A', 'S', 'S'],
            forall|j: int|
                0 <= j < i ==> (#[trigger] pv[j]).len() > 0 && ids@[j]@ == pv[j],
        decreases pieces@.len() - i,
    {
        proof {
            assert(pv[i as int] == pieces@[i as int]@);
        }
        if pieces[i].as_str().is_empty() {
            proof {
                assert(pv[i as int].len() == 0);
            }
            return Err(ParseError::InvalidFilters);
        }
        ids.push(pieces[i].clone());
        i += 1;
    }
    Ok(Filters::Fail(ids))
}

/// Whether `g` are the genotype columns the raw trailing text denotes:
/// nothing for empty text; otherwise the first tab-separated field's
/// colon-separated keys, then one colon-separated value set per further
/// field.
pub open spec fn genotypes_ok(p: Seq<char>, g: Genotypes) -> bool {
    if p.len() == 0 {
        g.keys@.len() == 0 && g.samples@.len() == 0
    } else {
        let fields = split_spec(p, '\t');
        let keys = split_spec(fields[0], ':');
        &&& g.keys@.len() == keys.len()
        &&& (forall|i: int| 0 <= i < keys.len() ==> g.keys@[i]@ == #[trigger] keys[i])
        &&& g.samples@.len() == fields.len() - 1
        &&& forall|i: int|
            0 <= i < fields.len() - 1 ==> {
                let vals = split_spec(#[trigger] fields[i + 1], ':');
                &&& g.samples@[i]@.len() == vals.len()
                &&& forall|j: int|
                    0 <= j < vals.len() ==> g.samples@[i]@[j]@ == #[trigger] vals[j]
            }
    }
}

/// Whether raw genotype columns can stand: absent entirely, or a first
/// field whose colon-separated format keys are each non-empty.
pub open spec fn genotypes_valid(p: Seq<char>) -> bool {
    p.len() == 0 || pieces_nonempty(split_spec(p, '\t')[0], ':')
}

/// Parses the genotype columns.
pub fn parse_genotypes(s: &str) -> (r: Result<Genotypes, ParseError>)
    ensures
        r is Ok <==> genotypes_valid(s@),
        match r {
            Ok(g) => genotypes_ok(s@, g),
            Err(e) => e == ParseError::InvalidGenotypes,
        },
{
    if s.is_empty() {
        return Ok(Genotypes { keys: Vec::new(), samples: Vec::new() });
    }
    let fields = split_str(s, '\t');
    let ghost fv = split_spec(s@, '\t');
    proof {
        assert(fv.len() > 0);
        assert(fv[0] == fields@[0]@);
    }
    let keys = split_str(fields[0].as_str(), ':');
    let ghost kv = split_spec(fv[0], ':');
    let mut k: usize = 0;
    while k < keys.len()
        invariant
            k <= keys@.len(),
            s@.len() > 0,
            fv == split_spec(s@, '\t'),
            fv.len() > 0,
            kv == split_spec(fv[0], ':'),
            kv == keys@.map_values(|x: String| x@),
            forall|j: int| 0 <= j < k ==> (#[trigger] kv[j]).len() > 0,
        decreases keys@.len() - k,
    {
        proof {
            assert(kv[k as int] == keys@[k as int]@);
        }
        if keys[k].as_str().is_empty() {
            proof {
                assert(kv[k as int].len() == 0);
            }
            return Err(ParseError::InvalidGenotypes);
        }
        k += 1;
    }
    let mut samples: Vec<Vec<String>> = Vec::new();
    let mut i: usize = 1;
    while i < fields.len()
        invariant
            1 <= i <= fields@.len(),
            fv == split_spec(s@, '\t'),
            fv == fields@.map_values(|x: String| x@),
            samples@.len() == i - 1,
            forall|k: int|
                0 <= k < i - 1 ==> {
                    let vals = split_spec(#[trigger] fv[k + 1], ':');
                    &&& samples@[k]@.len() == vals.len()
                    &&& forall|j: int|
                        0 <= j < vals.len() ==> samples@[k]@[j]@ == #[trigger] vals[j]
                },
        decreases fields@.len() - i,
    {
        proof {
            assert(fv[i as int] == fields@[i as int]@);
        }
        let vals = split_str(fields[i].as_str(), ':');
        samples.push(vals);
        i += 1;
    }
    let g = Genotypes { keys, samples };
    proof {
        assert(g.keys@.map_values(|x: String| x@) == kv);
        assert forall|i: int| 0 <= i < kv.len() implies g.keys@[i]@ == #[trigger] kv[i] by {
            assert(g.keys@.map_values(|x: String| x@)[i] == g.keys@[i]@);
        }
    }
    Ok(g)
}

/// The text of a missing column.
pub open spec fn missing_str() -> Seq<char> {
    seq!['.']
}

/// What stops a raw record line: the first column that does not parse.
pub ghost enum RecordFailure {
    /// The chromosome column.
    Chromosome,
    /// The position column.
    Position,
    /// The identifiers column.
    Ids,
    /// The reference bases column.
    ReferenceBases,
    /// The alternate bases column.
    AlternateBases,
    /// The quality score column.
    QualityScore,
    /// The filters column.
    Filters,
    /// The info column is present but empty.
    InfoEmpty,
    /// The info column's fields.
    Info(InfoFailure),
    /// The genotype columns.
    Genotypes,
}

/// The first failure among the trailing columns — quality score onward —
/// or nothing where they all parse.
pub open spec fn record_failure_tail(s: Seq<char>) -> Option<RecordFailure> {
    if field_at(s, 5) != missing_str() && !crate::vcf::sample_value::is_float_str(
        field_at(s, 5),
    ) {
        Some(RecordFailure::QualityScore)
    } else if field_at(s, 6) != missing_str() && !filters_valid(field_at(s, 6)) {
        Some(RecordFailure::Filters)
    } else if field_at(s, 7) != missing_str() && field_at(s, 7).len() == 0 {
        Some(RecordFailure::InfoEmpty)
    } else if field_at(s, 7) != missing_str() && info_failure(
        split_spec(field_at(s, 7), ';'),
        seq![],
    ) is Some {
        Some(RecordFailure::Info(info_failure(split_spec(field_at(s, 7), ';'), seq![])->Some_0))
    } else if !genotypes_valid(after_fields(s, 8)) {
        Some(RecordFailure::Genotypes)
    } else {
        None
    }
}

/// The first failure in a raw record line, or nothing where every column
/// parses.
pub open spec fn record_failure(s: Seq<char>) -> Option<RecordFailure> {
    if !chromosome_valid(field_at(s, 0)) {
        Some(RecordFailure::Chromosome)
    } else if !position_valid(field_at(s, 1)) {
        Some(RecordFailure::Position)
    } else if field_at(s, 2) != missing_str() && !pieces_nonempty(field_at(s, 2), ';') {
        Some(RecordFailure::Ids)
    } else if !reference_bases_valid(field_at(s, 3)) {
        Some(RecordFailure::ReferenceBases)
    } else if field_at(s, 4) != missing_str() && !pieces_nonempty(field_at(s, 4), ',') {
        Some(RecordFailure::AlternateBases)
    } else {
        record_failure_tail(s)
    }
}

/// Parses one raw record line: chromosome, position, identifiers,
/// reference and alternate bases, quality score, filters, and info, tab-
/// separated, then the genotype columns. A dot stands for a missing
/// column where one may be missing.
pub fn parse_record(s: &str) -> (r: Result<Record, ParseError>)
    ensures
        r is Ok <==> record_failure(s@) is None,
        match r {
            Ok(rec) => {
                &&& chromosome_ok(field_at(s@, 0), rec.chromosome)
                &&& is_int_position(field_at(s@, 1), rec.position)
                &&& (field_at(s@, 2) == missing_str() ==> rec.ids@.len() == 0)
                &&& (field_at(s@, 2) != missing_str() ==> ids_ok(field_at(s@, 2), rec.ids@))
                &&& reference_bases_ok(field_at(s@, 3), rec.reference_bases@)
                &&& (field_at(s@, 4) == missing_str() ==> rec.alternate_bases@.len() == 0)
                &&& (field_at(s@, 4) != missing_str() ==> alternate_bases_ok(
                    field_at(s@, 4),
                    rec.alternate_bases@,
                ))
                &&& (field_at(s@, 5) == missing_str() <==> rec.quality_score is None)
                &&& (rec.quality_score matches Some(q) ==> crate::vcf::sample_value::is_float_str(
                    q@,
                ) && q@ == field_at(s@, 5))
                &&& (field_at(s@, 6) == missing_str() <==> rec.filters is None)
                &&& (rec.filters matches Some(f) ==> filters_ok(field_at(s@, 6), f))
                &&& (field_at(s@, 7) == missing_str() ==> rec.info@.len() == 0)
                &&& genotypes_ok(after_fields(s@, 8), rec.genotypes)
            },
            Err(e) => match e {
                ParseError::InvalidChromosome => record_failure(s@) == Some(
                    RecordFailure::Chromosome,
                ),
                ParseError::InvalidPosition => record_failure(s@) == Some(RecordFailure::Position),
                ParseError::InvalidIds => record_failure(s@) == Some(RecordFailure::Ids),
                ParseError::InvalidReferenceBases => record_failure(s@) == Some(
                    RecordFailure::ReferenceBases,
                ),
                ParseError::InvalidAlternateBases => record_failure(s@) == Some(
                    RecordFailure::AlternateBases,
                ),
                ParseError::InvalidQualityScore => record_failure(s@) == Some(
                    RecordFailure::QualityScore,
                ),
                ParseError::InvalidFilters => record_failure(s@) == Some(RecordFailure::Filters),
                ParseError::InvalidInfo(ie) => match ie {
                    crate::vcf::info::ParseError::Empty => record_failure(s@) == Some(
                        RecordFailure::InfoEmpty,
                    ),
                    crate::vcf::info::ParseError::InvalidField => record_failure(s@) == Some(
                        RecordFailure::Info(InfoFailure::Field),
                    ),
                    crate::vcf::info::ParseError::DuplicateKey(k) => record_failure(s@) == Some(
                        RecordFailure::Info(InfoFailure::Duplicate(k@)),
                    ),
                },
                ParseError::InvalidGenotypes => record_failure(s@) == Some(
                    RecordFailure::Genotypes,
                ),
            },
        },
{
    let ghost sv = s@;
    let mut pos: usize = 0;
    proof {
        assert(s@.skip(0) =~= after_fields(sv, 0));
    }
    let (f0, p1) = next_field(s, pos);
    proof {
        lemma_after_fields_step(sv, 0, pos as int, p1 as int, s@);
    }
    let chromosome = match parse_chromosome(f0.as_str()) {
        Ok(c) => c,
        Err(e) => {
            return Err(e);
        },
    };
    let (f1, p2) = next_field(s, p1);
    proof {
        lemma_after_fields_step(sv, 1, p1 as int, p2 as int, s@);
    }
    let position = match parse_position(f1.as_str()) {
        Ok(p) => p,
        Err(e) => {
            return Err(e);
        },
    };
    let (f2, p3) = next_field(s, p2);
    proof {
        lemma_after_fields_step(sv, 2, p2 as int, p3 as int, s@);
        reveal_strlit(".");
        assert("."@ =~= missing_str());
    }
    let ids: Vec<String> = if str_eq(f2.as_str(), ".") {
        Vec::new()
    } else {
        match parse_ids(f2.as_str()) {
            Ok(v) => v,
            Err(e) => {
                return Err(e);
            },
        }
    };
    let (f3, p4) = next_field(s, p3);
    proof {
        lemma_after_fields_step(sv, 3, p3 as int, p4 as int, s@);
    }
    let reference_bases = match parse_reference_bases(f3.as_str()) {
        Ok(b) => b,
        Err(e) => {
            return Err(e);
        },
    };
    let (f4, p5) = next_field(s, p4);
    proof {
        lemma_after_fields_step(sv, 4, p4 as int, p5 as int, s@);
    }
    let alternate_bases: Vec<String> = if str_eq(f4.as_str(), ".") {
        Vec::new()
    } else {
        match parse_alternate_bases(f4.as_str()) {
            Ok(v) => v,
            Err(e) => {
                return Err(e);
            },
        }
    };
    let (f5, p6) = next_field(s, p5);
    proof {
        lemma_after_fields_step(sv, 5, p5 as int, p6 as int, s@);
    }
    let quality_score: Option<String> = if str_eq(f5.as_str(), ".") {
        None
    } else {
        if crate::vcf::sample_value::check_float_str(f5.as_str()) {
            Some(f5)
        } else {
            return Err(ParseError::InvalidQualityScore);
        }
    };
    let (f6, p7) = next_field(s, p6);
    proof {
        lemma_after_fields_step(sv, 6, p6 as int, p7 as int, s@);
    }
    let filters: Option<Filters> = if str_eq(f6.as_str(), ".") {
        None
    } else {
        match parse_filters(f6.as_str()) {
            Ok(f) => Some(f),
            Err(e) => {
                return Err(e);
            },
        }
    };
    let (f7, p8) = next_field(s, p7);
    proof {
        lemma_after_fields_step(sv, 7, p7 as int, p8 as int, s@);
    }
    let mut info = Info::new();
    proof {
        assert(keys_of(info@) =~= Seq::<Seq<char>>::empty());
    }
    if !str_eq(f7.as_str(), ".") {
        match parse_info(f7.as_str(), &mut info) {
            Ok(()) => (),
            Err(e) => {
                return Err(ParseError::InvalidInfo(e));
            },
        }
    }
    let rest = s.substring_char(p8, s.unicode_len());
    proof {
        assert(rest@ =~= s@.skip(p8 as int));
    }
    let genotypes = match parse_genotypes(rest) {
        Ok(g) => g,
        Err(e) => {
            return Err(e);
        },
    };
    Ok(
        Record {
            chromosome,
            position,
            ids,
            reference_bases,
            alternate_bases,
            quality_score,
            filters,
            info,
            genotypes,
        },
    )
}

/// Whether `p` is the 1-based position the raw column denotes.
pub open spec fn is_int_position(s: Seq<char>, p: i32) -> bool {
    &&& crate::text::is_int_str(s)
    &&& p as int == crate::text::int_str_value(s)
    &&& p >= 0
}

/// Whether a raw position column can stand: a non-negative integer
/// literal within the 32-bit range.
pub open spec fn position_valid(p: Seq<char>) -> bool {
    &&& crate::text::is_int_str(p)
    &&& 0 <= crate::text::int_str_value(p) <= 0x7fffffff
}

/// Parses the position column: a non-negative 32-bit integer.
pub fn parse_position(s: &str) -> (r: Result<i32, ParseError>)
    ensures
        r is Ok <==> position_valid(s@),
        match r {
            Ok(p) => is_int_position(s@, p),
            Err(e) => e == ParseError::InvalidPosition,
        },
{
    match parse_i32_str(s) {
        Some(p) => {
            if p >= 0 {
                Ok(p)
            } else {
                Err(ParseError::InvalidPosition)
            }
        },
        None => Err(ParseError::InvalidPosition),
    }
}

/// Stepping one field forward: the text after the cursor is what stands
/// after the fields taken so far, so the field just taken is the next
/// numbered field, and the new cursor stands after one more field.
proof fn lemma_after_fields_step(sv: Seq<char>, n: nat, pos: int, newpos: int, s: Seq<char>)
    requires
        s == sv,
        0 <= pos <= s.len(),
        s.skip(pos) == after_fields(sv, n),
        match find_char(s.skip(pos), '\t') {
            None => newpos == s.len(),
            Some(i) => newpos == pos + i + 1,
        },
    ensures
        s.skip(newpos) == after_fields(sv, n + 1),
        match find_char(s.skip(pos), '\t') {
            None => field_at(sv, n) == s.skip(pos),
            Some(i) => field_at(sv, n) == s.skip(pos).take(i),
        },
{
    let rest = s.skip(pos);
    lemma_find_char(rest, '\t');
    lemma_after_fields_add(sv, n, 1);
    match find_char(rest, '\t') {
        None => {
            assert(after_fields(rest, 1) == Seq::<char>::empty());
            assert(s.skip(newpos) =~= Seq::<char>::empty());
        },
        Some(i) => {
            assert(after_fields(rest.skip(i + 1), 0) == rest.skip(i + 1));
            assert(after_fields(rest, 1) == rest.skip(i + 1));
            assert(s.skip(newpos) =~= rest.skip(i + 1));
        },
    }
}

/// Fields are taken one run at a time: taking `m` more fields after `n`
/// is taking `n + m` fields.
proof fn lemma_after_fields_add(s: Seq<char>, n: nat, m: nat)
    ensures
        after_fields(s, n + m) == after_fields(after_fields(s, n), m),
    decreases n,
{
    if n > 0 {
        match find_char(s, '\t') {
            None => {
                lemma_after_fields_add(Seq::<char>::empty(), (n - 1) as nat, m);
                lemma_after_fields_empty((n - 1) as nat);
                lemma_after_fields_empty(((n + m) - 1) as nat);
            },
            Some(i) => {
                lemma_after_fields_add(s.skip(i + 1), (n - 1) as nat, m);
            },
        }
    }
}

/// Nothing remains of nothing, however many fields are taken.
proof fn lemma_after_fields_empty(n: nat)
    ensures
        after_fields(Seq::<char>::empty(), n) == Seq::<char>::empty(),
    decreases n,
{
    if n > 0 {
        assert(find_char(Seq::<char>::empty(), '\t') is None);
    }
}

} // verus!
