//! Boolean gates over a fixed vector of at least two inputs.

use vstd::prelude::*;

use crate::text::ParseError;

verus! {

/// Every input is true.
pub open spec fn and_of(s: Seq<bool>) -> bool {
    forall|i: int| 0 <= i < s.len() ==> #[trigger] s[i]
}

/// Some input is true.
pub open spec fn or_of(s: Seq<bool>) -> bool {
    exists|i: int| 0 <= i < s.len() && #[trigger] s[i]
}

/// Parity: exclusive-or folded from the left, starting from false.
pub open spec fn xor_of(s: Seq<bool>) -> bool
    decreases s.len(),
{
    if s.len() == 0 {
        false
    } else {
        xor_of(s.drop_last()) != s.last()
    }
}

pub open spec fn nand_of(s: Seq<bool>) -> bool {
    !and_of(s)
}

pub open spec fn nor_of(s: Seq<bool>) -> bool {
    !or_of(s)
}

pub open spec fn xnor_of(s: Seq<bool>) -> bool {
    !xor_of(s)
}

/// Each input negated, in order.
pub open spec fn negated(s: Seq<bool>) -> Seq<bool> {
    Seq::new(s.len(), |i: int| !s[i])
}

/// The negated gates are the negations of the plain ones; in particular the
/// exclusive-or of any inputs is the negation of their exclusive-nor.
pub proof fn gate_laws(s: Seq<bool>)
    ensures
        xor_of(s) == !xnor_of(s),
        nand_of(s) == !and_of(s),
        nor_of(s) == !or_of(s),
        negated(negated(s)) == s,
{
    assert(negated(negated(s)) =~= s);
}

/// A gate over a vector of boolean inputs.
pub struct LogicGate {
    pub inputs: Vec<bool>,
}

impl LogicGate {
    /// A gate has at least two inputs.
    pub open spec fn wf(&self) -> bool {
        self.inputs@.len() >= 2
    }

    /// Builds a gate; fails when fewer than two inputs are given.
    pub fn new(inputs: Vec<bool>) -> (r: Result<LogicGate, &'static str>)
        ensures
            r is Err <==> inputs@.len() < 2,
            r matches Ok(g) ==> g.inputs@ == inputs@ && g.wf(),
    {
        let n = inputs.len();
        if n < 2 {
            return Err("LogicGate requires at least two inputs.");
        }
        Ok(LogicGate { inputs })
    }

    /// True iff every input is true.
    pub fn and(&self) -> (r: bool)
        ensures
            r == and_of(self.inputs@),
    {
        let mut i: usize = 0;
        while i < self.inputs.len()
            invariant
                0 <= i <= self.inputs@.len(),
                forall|k: int| 0 <= k < i ==> #[trigger] self.inputs@[k],
            decreases self.inputs@.len() - i,
        {
            if !self.inputs[i] {
                return false;
            }
            i = i + 1;
        }
        true
    }

    /// True iff some input is true.
    pub fn or(&self) -> (r: bool)
        ensures
            r == or_of(self.inputs@),
    {
        let mut i: usize = 0;
        while i < self.inputs.len()
            invariant
                0 <= i <= self.inputs@.len(),
                forall|k: int| 0 <= k < i ==> !#[trigger] self.inputs@[k],
            decreases self.inputs@.len() - i,
        {
            if self.inputs[i] {
                return true;
            }
            i = i + 1;
        }
        false
    }

    /// Each input negated.
    pub fn not(&self) -> (r: Vec<bool>)
        ensures
            r@ == negated(self.inputs@),
    {
        let mut out: Vec<bool> = Vec::new();
        let mut i: usize = 0;
        while i < self.inputs.len()
            invariant
                0 <= i <= self.inputs@.len(),
                out@ == negated(self.inputs@).subrange(0, i as int),
            decreases self.inputs@.len() - i,
        {
            out.push(!self.inputs[i]);
            i = i + 1;
            proof {
                assert(out@ =~= negated(self.inputs@).subrange(0, i as int));
            }
        }
        proof {
            assert(out@ =~= negated(self.inputs@));
        }
        out
    }

    pub fn nand(&self) -> (r: bool)
        ensures
            r == nand_of(self.inputs@),
    {
        !self.and()
    }

    pub fn nor(&self) -> (r: bool)
        ensures
            r == nor_of(self.inputs@),
    {
        !self.or()
    }

    /// True iff an odd number of inputs are true.
    pub fn xor(&self) -> (r: bool)
        ensures
            r == xor_of(self.inputs@),
    {
        let mut acc = false;
        let mut i: usize = 0;
        while i < self.inputs.len()
            invariant
                0 <= i <= self.inputs@.len(),
                acc == xor_of(self.inputs@.subrange(0, i as int)),
            decreases self.inputs@.len() - i,
        {
            proof {
                assert(self.inputs@.subrange(0, i + 1).drop_last() =~= self.inputs@.subrange(
                    0,
                    i as int,
                ));
            }
            acc = acc ^ self.inputs[i];
            i = i + 1;
        }
        proof {
            assert(self.inputs@.subrange(0, self.inputs@.len() as int) =~= self.inputs@);
        }
        acc
    }

    pub fn xnor(&self) -> (r: bool)
        ensures
            r == xnor_of(self.inputs@),
    {
        !self.xor()
    }
}

#[verifier::external_type_specification]
#[verifier::external_body]
pub struct ExCsvError(csv::Error);

/// The records of a comma-separated table after its header row, each as its
/// fields, or nothing where the table is malformed.
pub uninterp spec fn csv_records(text: Seq<char>) -> Option<Seq<Seq<Seq<char>>>>;

/// Relies on csv's `ReaderBuilder` with headers on, `from_reader` and
/// `records`: which records (and fields) follow the header row, or whether
/// the table is rejected, depends on the text alone.
#[verifier::external_body]
fn read_records(text: &str) -> (r: Result<Vec<Vec<String>>, csv::Error>)
    ensures
        match r {
            Ok(v) => csv_records(text@) == Some(v.deep_view()),
            Err(_) => csv_records(text@) is None,
        },
{
    let mut reader = csv::ReaderBuilder::new().has_headers(true).from_reader(text.as_bytes());
    let mut out = Vec::new();
    for record in reader.records() {
        out.push(record?.iter().map(|f| f.to_string()).collect());
    }
    Ok(out)
}

/// `true` and `false`, written out in lower case.
pub open spec fn bool_of(s: Seq<char>) -> Option<bool> {
    if s == "true"@ {
        Some(true)
    } else if s == "false"@ {
        Some(false)
    } else {
        None
    }
}

/// The boolean in the first field of each record, or the first failure.
pub open spec fn bools_of(records: Seq<Seq<Seq<char>>>) -> Result<Seq<bool>, ParseError>
    decreases records.len(),
{
    if records.len() == 0 {
        Ok(Seq::empty())
    } else {
        match bools_of(records.drop_last()) {
            Err(e) => Err(e),
            Ok(v) => if records.last().len() == 0 {
                Err(ParseError::MissingField)
            } else {
                match bool_of(records.last()[0]) {
                    Some(b) => Ok(v.push(b)),
                    None => Err(ParseError::InvalidBoolean),
                }
            },
        }
    }
}

proof fn lemma_bools_err(t: Seq<Seq<Seq<char>>>, k: int)
    requires
        0 <= k <= t.len(),
        bools_of(t.subrange(0, k)) is Err,
    ensures
        bools_of(t) == bools_of(t.subrange(0, k)),
    decreases t.len() - k,
{
    if k < t.len() {
        assert(t.subrange(0, k + 1).drop_last() =~= t.subrange(0, k));
        lemma_bools_err(t, k + 1);
    } else {
        assert(t.subrange(0, k) =~= t);
    }
}

/// The boolean in the first field of each record: `true` or `false`.
pub fn parse_bool_records(records: &Vec<Vec<String>>) -> (r: Result<Vec<bool>, ParseError>)
    ensures
        match bools_of(records.deep_view()) {
            Ok(v) => r matches Ok(x) && x@ == v,
            Err(e) => r == Err::<Vec<bool>, ParseError>(e),
        },
{
    let ghost t = records.deep_view();
    let t_true = "true".to_owned();
    let t_false = "false".to_owned();
    let mut out: Vec<bool> = Vec::new();
    let mut i: usize = 0;
    proof {
        assert(t.subrange(0, 0) =~= Seq::<Seq<Seq<char>>>::empty());
    }
    while i < records.len()
        invariant
            t == records.deep_view(),
            t_true@ == "true"@,
            t_false@ == "false"@,
            0 <= i <= records@.len(),
            bools_of(t.subrange(0, i as int)) == Ok::<Seq<bool>, ParseError>(out@),
        decreases records@.len() - i,
    {
        let rec = &records[i];
        proof {
            assert(t.subrange(0, i + 1).drop_last() =~= t.subrange(0, i as int));
            assert(t.subrange(0, i + 1).last() == rec.deep_view());
        }
        if rec.len() == 0 {
            proof {
                lemma_bools_err(t, i + 1);
            }
            return Err(ParseError::MissingField);
        }
        let field = &rec[0];
        proof {
            assert(rec.deep_view()[0] == field@);
        }
        if *field == t_true {
            out.push(true);
        } else if *field == t_false {
            out.push(false);
        } else {
            proof {
                lemma_bools_err(t, i + 1);
            }
            return Err(ParseError::InvalidBoolean);
        }
        i = i + 1;
    }
    proof {
        assert(t.subrange(0, t.len() as int) =~= t);
    }
    Ok(out)
}

/// Reads one boolean per record of a comma-separated table whose first row
/// is a header: the first field of each later record.
pub fn parse_logic_inputs(text: &str) -> (r: Result<Vec<bool>, ParseError>)
    ensures
        match csv_records(text@) {
            None => r == Err::<Vec<bool>, ParseError>(ParseError::MalformedTable),
            Some(recs) => match bools_of(recs) {
                Ok(v) => r matches Ok(x) && x@ == v,
                Err(e) => r == Err::<Vec<bool>, ParseError>(e),
            },
        },
{
    match read_records(text) {
        Ok(records) => parse_bool_records(&records),
        Err(_) => Err(ParseError::MalformedTable),
    }
}

} // verus!
