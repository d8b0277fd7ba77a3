//! The dynamic linker's read-only view of a loaded binary image: ordered
//! sections (some carrying indirect-symbol metadata), an exported-symbol
//! table, and a list of external relocations. The binary-image parser
//! that produces these lives outside this crate.

use vstd::prelude::*;

verus! {

use crate::tables::{find_entry, lemma_find_entry_characterization, table_lookup, lookup_address};
use crate::text::str_eq;

/// Indirect-symbol metadata for one section: the fixed size in bytes of
/// each entry, and the undefined-symbol name (if any) each entry refers to.
pub struct DyldIndirectSymbolInfo {
    pub entry_size: u32,
    pub indirect_undef_symbols: Vec<Option<String>>,
}

/// One section of a loaded binary.
pub struct Section {
    pub name: String,
    pub addr: u32,
    pub size: u32,
    pub dyld_indirect_symbol_info: Option<DyldIndirectSymbolInfo>,
}

/// A loaded binary image.
pub struct MachO {
    pub name: String,
    pub sections: Vec<Section>,
    pub exported_symbols: Vec<(String, u32)>,
    pub external_relocations: Vec<(u32, String)>,
}

/// Index of the first section with the given name.
pub open spec fn find_section(sections: Seq<Section>, name: Seq<char>) -> Option<int>
    decreases sections.len(),
{
    if sections.len() == 0 {
        None
    } else if sections[0].name@ == name {
        Some(0)
    } else {
        match find_section(sections.drop_first(), name) {
            Some(i) => Some(i + 1),
            None => None,
        }
    }
}

pub proof fn lemma_find_section_characterization(sections: Seq<Section>, name: Seq<char>)
    ensures
        match find_section(sections, name) {
            Some(i) => {
                &&& 0 <= i < sections.len()
                &&& sections[i].name@ == name
                &&& forall|j: int| 0 <= j < i ==> (#[trigger] sections[j]).name@ != name
            },
            None => forall|j: int| 0 <= j < sections.len() ==> (#[trigger] sections[j]).name@ != name,
        },
    decreases sections.len(),
{
    if sections.len() > 0 && sections[0].name@ != name {
        let t = sections.drop_first();
        lemma_find_section_characterization(t, name);
        assert forall|j: int| 0 <= j < t.len() implies #[trigger] t[j] == sections[j + 1] by {}
        match find_section(t, name) {
            Some(i) => {
                assert forall|j: int| 0 <= j < i + 1 implies (#[trigger] sections[j]).name@ != name by {
                    if j > 0 {
                        assert(t[j - 1].name@ != name);
                    }
                }
            },
            None => {
                assert forall|j: int| 0 <= j < sections.len() implies (#[trigger] sections[j]).name@ != name by {
                    if j > 0 {
                        assert(t[j - 1].name@ != name);
                    }
                }
            },
        }
    }
}

impl MachO {
    /// The first section with the given name, if any.
    pub open spec fn spec_get_section(self, name: Seq<char>) -> Option<int> {
        find_section(self.sections@, name)
    }

    /// The address of this binary's export with the given name, if any.
    pub open spec fn spec_exported_symbol(self, symbol: Seq<char>) -> Option<u32> {
        table_lookup(self.exported_symbols@, symbol)
    }

    pub fn get_section(&self, name: &str) -> (r: Option<&Section>)
        ensures
            match r {
                Some(s) => self.spec_get_section(name@) is Some
                    && *s == self.sections@[self.spec_get_section(name@)->Some_0],
                None => self.spec_get_section(name@) is None,
            },
    {
        proof {
            lemma_find_section_characterization(self.sections@, name@);
        }
        let n = self.sections.len();
        let mut k: usize = 0;
        while k < n
            invariant
                n == self.sections@.len(),
                0 <= k <= n,
                forall|j: int| 0 <= j < k ==> (#[trigger] self.sections@[j]).name@ != name@,
            decreases n - k,
        {
            if str_eq(self.sections[k].name.as_str(), name) {
                proof {
                    lemma_find_section_characterization(self.sections@, name@);
                    match find_section(self.sections@, name@) {
                        Some(i) => {
                            if i < k {
                                assert(self.sections@[i].name@ != name@);
                            }
                            if k < i {
                                assert(self.sections@[k as int].name@ != name@);
                            }
                            assert(i == k);
                        },
                        None => {
                            assert(self.sections@[k as int].name@ != name@);
                        },
                    }
                }
                return Some(&self.sections[k]);
            }
            k += 1;
        }
        proof {
            lemma_find_section_characterization(self.sections@, name@);
            if find_section(self.sections@, name@) is Some {
                let i = find_section(self.sections@, name@)->Some_0;
                assert(self.sections@[i].name@ != name@);
            }
        }
        None
    }

    /// The address this binary exports the given symbol at, if any.
    pub fn exported_symbol(&self, symbol: &str) -> (r: Option<u32>)
        ensures
            r == self.spec_exported_symbol(symbol@),
    {
        lookup_address(&self.exported_symbols, symbol)
    }
}

} // verus!
