use vstd::prelude::*;

verus! {

/// A program that can open a file, and how it is to be started.
#[derive(Clone, Debug, PartialEq, Eq)]
pub struct MimetypeEntry {
    pub program: String,
    pub args: Vec<String>,
    /// The program runs beside the browser, not in its place.
    pub fork: bool,
    /// What the program prints is thrown away.
    pub silent: bool,
}

/// The programs configured for one key: an extension or a type of content.
#[derive(Clone, Debug, PartialEq, Eq)]
pub struct MimetypeRule {
    pub key: String,
    pub options: Vec<MimetypeEntry>,
}

/// The configured programs, by file extension and by type of content.
#[derive(Clone, Debug, PartialEq, Eq)]
pub struct MimetypeTable {
    pub extension: Vec<MimetypeRule>,
    pub mimetype: Vec<MimetypeRule>,
}

/// The options of the first of `rules` with the key `key`; none where no
/// rule has it.
pub open spec fn spec_lookup(rules: Seq<MimetypeRule>, key: Seq<char>) -> Seq<MimetypeEntry>
    decreases rules.len(),
{
    if rules.len() == 0 {
        Seq::empty()
    } else if rules[0].key@ == key {
        rules[0].options@
    } else {
        spec_lookup(rules.drop_first(), key)
    }
}

/// The entries that the references in `s` point to.
pub open spec fn spec_derefs(s: Seq<&MimetypeEntry>) -> Seq<MimetypeEntry> {
    Seq::new(s.len(), |i: int| *s[i])
}

/// Adds to `out` the options that `rules` hold for `key`.
pub fn append_options<'a>(
    out: &mut Vec<&'a MimetypeEntry>,
    rules: &'a Vec<MimetypeRule>,
    key: &String,
)
    ensures
        spec_derefs(final(out)@) == spec_derefs(old(out)@) + spec_lookup(rules@, key@),
{
    let mut i: usize = 0;
    assert(rules@.subrange(0, rules@.len() as int) =~= rules@);
    while i < rules.len()
        invariant
            i <= rules@.len(),
            *out == *old(out),
            spec_lookup(rules@, key@) == spec_lookup(
                rules@.subrange(i as int, rules@.len() as int),
                key@,
            ),
        decreases rules@.len() - i,
    {
        if rules[i].key == *key {
            let options: &'a Vec<MimetypeEntry> = &rules[i].options;
            let ghost before = spec_derefs(out@);
            let mut j: usize = 0;
            while j < options.len()
                invariant
                    j <= options@.len(),
                    spec_derefs(out@) == before + options@.subrange(0, j as int),
                decreases options@.len() - j,
            {
                let ghost prev = out@;
                out.push(&options[j]);
                assert(spec_derefs(out@) =~= spec_derefs(prev).push(options@[j as int]));
                assert(options@.subrange(0, j + 1) =~= options@.subrange(0, j as int).push(
                    options@[j as int],
                ));
                j = j + 1;
            }
            assert(options@.subrange(0, options@.len() as int) =~= options@);
            return ;
        }
        assert(rules@.subrange(i as int, rules@.len() as int).drop_first() =~= rules@.subrange(
            i + 1,
            rules@.len() as int,
        ));
        i = i + 1;
    }
    assert(spec_derefs(out@) + Seq::<MimetypeEntry>::empty() =~= spec_derefs(out@));
}

} // verus!
