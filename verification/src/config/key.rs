//! The names of sections and variables.

use crate::bytes::{
    copy_of, downcase, downcased, first, free_of, from, lemma_until_is, memchr, same_bytes, until,
    DOT,
};
use crate::config::parse::{is_alphabetic, is_name_byte, spec_is_alphabetic, spec_is_name_byte};
use vstd::prelude::*;

verus! {

/// A section: its name in lowercase, and its subsection as it is written.
#[derive(Debug, PartialEq, Eq)]
pub struct SectionKey<B = Vec<u8>> {
    pub name: B,
    pub subsection: Option<B>,
}

/// A variable of a section: its name in lowercase.
#[derive(Debug, PartialEq, Eq)]
pub struct ConfigKey<B = Vec<u8>> {
    pub section: SectionKey<B>,
    pub name: B,
}

impl View for SectionKey {
    type V = SectionKey<Seq<u8>>;

    open spec fn view(&self) -> SectionKey<Seq<u8>> {
        SectionKey {
            name: self.name@,
            subsection: match self.subsection {
                Some(s) => Some(s@),
                None => None,
            },
        }
    }
}

impl View for ConfigKey {
    type V = ConfigKey<Seq<u8>>;

    open spec fn view(&self) -> ConfigKey<Seq<u8>> {
        ConfigKey { section: self.section@, name: self.name@ }
    }
}

pub open spec fn all_name_bytes(b: Seq<u8>) -> bool {
    forall|i: int| 0 <= i < b.len() ==> spec_is_name_byte(#[trigger] b[i])
}

/// The bytes in lowercase, if all of them are name bytes.
pub fn try_downcase(buf: &[u8]) -> (r: Option<Vec<u8>>)
    ensures
        match r {
            Some(bytes) => all_name_bytes(buf@) && bytes@ == downcased(buf@),
            None => !all_name_bytes(buf@),
        },
{
    let mut i: usize = 0;
    while i < buf.len()
        invariant
            i <= buf@.len(),
            forall|j: int| 0 <= j < i ==> spec_is_name_byte(#[trigger] buf@[j]),
        decreases buf@.len() - i,
    {
        if !is_name_byte(buf[i]) {
            return None;
        }
        i = i + 1;
    }
    Some(downcase(buf))
}

/// The index of the last `needle`, or -1.
pub open spec fn last_index(b: Seq<u8>, needle: u8) -> int
    decreases b.len(),
{
    if b.len() == 0 {
        -1
    } else if b.last() == needle {
        b.len() - 1
    } else {
        last_index(b.drop_last(), needle)
    }
}

fn rposition(b: &[u8], needle: u8) -> (r: Option<usize>)
    ensures
        match r {
            Some(i) => i == last_index(b@, needle) && i < b.len(),
            None => last_index(b@, needle) == -1,
        },
{
    let mut n: usize = b.len();
    assert(b@.take(n as int) =~= b@);
    while n > 0
        invariant
            n <= b@.len(),
            last_index(b@, needle) == last_index(b@.take(n as int), needle),
        decreases n,
    {
        assert(b@.take(n as int).drop_last() =~= b@.take(n - 1));
        if b[n - 1] == needle {
            return Some(n - 1);
        }
        n = n - 1;
    }
    None
}

/// The section that a header text `section` or `section.subsection` names: the section ends at the
/// first dot.
pub open spec fn section_of_name(header: Seq<u8>) -> Option<SectionKey<Seq<u8>>> {
    let dot = until(header, DOT);
    let section = header.take(dot);
    let subsection = header.skip(dot + 1);
    if section.len() == 0 || !all_name_bytes(section) {
        None
    } else if dot == header.len() {
        Some(SectionKey { name: downcased(section), subsection: None })
    } else if subsection.len() == 0 {
        None
    } else {
        Some(SectionKey { name: downcased(section), subsection: Some(subsection) })
    }
}

/// The variable that `section.name` or `section.subsection.name` names: its name is what stands
/// behind the last dot.
pub open spec fn key_of_name(b: Seq<u8>) -> Option<ConfigKey<Seq<u8>>> {
    let dot = last_index(b, DOT);
    let name = b.skip(dot + 1);
    if dot < 0 || name.len() == 0 || !spec_is_alphabetic(name[0]) || !all_name_bytes(name) {
        None
    } else {
        match section_of_name(b.take(dot)) {
            None => None,
            Some(section) => Some(ConfigKey { section, name: downcased(name) }),
        }
    }
}

/// Are these the same bytes, or both absent?
fn same_optional(a: &Option<Vec<u8>>, b: &Option<Vec<u8>>) -> (r: bool)
    ensures
        r == (match (*a, *b) {
            (Some(x), Some(y)) => x@ == y@,
            (None, None) => true,
            _ => false,
        }),
{
    match (a, b) {
        (Some(x), Some(y)) => same_bytes(x.as_slice(), y.as_slice()),
        (None, None) => true,
        _ => false,
    }
}

impl SectionKey {
    /// The section that a text `section` or `section.subsection` names.
    pub fn new(header: &[u8]) -> (r: Option<Self>)
        ensures
            match r {
                Some(key) => section_of_name(header@) == Some(key@),
                None => section_of_name(header@) is None,
            },
    {
        let dot: usize = match memchr(DOT, header) {
            Some(i) => {
                proof {
                    lemma_until_is(header@, DOT, i as int);
                }
                i
            },
            None => {
                proof {
                    lemma_until_is(header@, DOT, header@.len() as int);
                }
                header.len()
            },
        };
        if dot == 0 {
            return None;
        }
        let name = try_downcase(first(header, dot))?;
        if dot == header.len() {
            return Some(SectionKey { name, subsection: None });
        }
        let subsection = from(header, dot + 1);
        if subsection.len() == 0 {
            return None;
        }
        Some(SectionKey { name, subsection: Some(copy_of(subsection)) })
    }

    /// The section of a header that was parsed.
    pub fn new_unchecked(name: &[u8], subsection: Option<&[u8]>) -> (key: Self)
        ensures
            key@ == (SectionKey {
                name: downcased(name@),
                subsection: match subsection {
                    Some(s) => Some(s@),
                    None => None,
                },
            }),
    {
        SectionKey {
            name: downcase(name),
            subsection: match subsection {
                Some(s) => Some(copy_of(s)),
                None => None,
            },
        }
    }

    pub fn same_as(&self, other: &SectionKey) -> (r: bool)
        ensures
            r == (self@ == other@),
    {
        same_bytes(self.name.as_slice(), other.name.as_slice()) && same_optional(
            &self.subsection,
            &other.subsection,
        )
    }

    /// A copy of the key.
    pub fn copied(&self) -> (r: Self)
        ensures
            r@ == self@,
    {
        SectionKey {
            name: copy_of(self.name.as_slice()),
            subsection: match &self.subsection {
                Some(s) => Some(copy_of(s.as_slice())),
                None => None,
            },
        }
    }
}

impl ConfigKey {
    /// The variable that a dotted name names.
    pub fn from_name(name: &[u8]) -> (r: Option<Self>)
        ensures
            match r {
                Some(key) => key_of_name(name@) == Some(key@),
                None => key_of_name(name@) is None,
            },
    {
        let dot: usize = rposition(name, DOT)?;
        let header = first(name, dot);
        let variable = from(name, dot + 1);
        if variable.len() == 0 || !is_alphabetic(variable[0]) {
            return None;
        }
        let section = SectionKey::new(header)?;
        let name = try_downcase(variable)?;
        Some(ConfigKey { section, name })
    }

    /// The variable of a line that was parsed.
    pub fn new_unchecked(section: SectionKey, name: &[u8]) -> (key: Self)
        ensures
            key@ == (ConfigKey { section: section@, name: downcased(name@) }),
    {
        ConfigKey { section, name: downcase(name) }
    }

    pub fn same_as(&self, other: &ConfigKey) -> (r: bool)
        ensures
            r == (self@ == other@),
    {
        self.section.same_as(&other.section) && same_bytes(
            self.name.as_slice(),
            other.name.as_slice(),
        )
    }
}

/// A section is what stands in front of the first dot, in lowercase, and its subsection all that
/// stands behind it, as it is written.
pub proof fn sections_end_at_the_first_dot(section: Seq<u8>, subsection: Seq<u8>)
    requires
        free_of(section, 0x2e),
    ensures
        ({
            let is_name = section.len() > 0 && forall|i: int|
                0 <= i < section.len() ==> (0x30 <= #[trigger] section[i] <= 0x39 || 0x41
                    <= section[i] <= 0x5a || 0x61 <= section[i] <= 0x7a || section[i] == 0x2d);
            &&& section_of_name(section) == (if is_name {
                Some(SectionKey { name: downcased(section), subsection: None })
            } else {
                None
            })
            &&& section_of_name(section + seq![0x2eu8] + subsection) == (if is_name
                && subsection.len() > 0 {
                Some(SectionKey { name: downcased(section), subsection: Some(subsection) })
            } else {
                None
            })
        }),
{
    lemma_until_is(section, DOT, section.len() as int);
    assert(section.take(section.len() as int) =~= section);
    let all = section + seq![0x2eu8] + subsection;
    lemma_until_is(all, DOT, section.len() as int);
    assert(all.take(section.len() as int) =~= section);
    assert(all.skip(section.len() as int + 1) =~= subsection);
    if all_name_bytes(section) {
        assert forall|i: int| 0 <= i < section.len() implies (0x30 <= #[trigger] section[i] <= 0x39
            || 0x41 <= section[i] <= 0x5a || 0x61 <= section[i] <= 0x7a || section[i] == 0x2d) by {
            assert(spec_is_name_byte(section[i]));
        }
    }
}

} // verus!
