//! Which files are read as they are, and which are converted by ffmpeg.

use vstd::prelude::*;
use crate::text::starts_with;
use crate::y4m;

verus! {

/// The lower case of an ASCII letter; other bytes stay as they are.
pub open spec fn lower(b: u8) -> u8 {
    if 0x41 <= b <= 0x5A {
        (b + 0x20) as u8
    } else {
        b
    }
}

/// y4m
pub open spec fn y4m_extension() -> Seq<u8> {
    seq![0x79u8, 0x34u8, 0x6Du8]
}

/// A file is Y4M by its extension, in upper or lower case, or by its signature.
pub open spec fn is_y4m_file(extension: Option<Seq<u8>>, contents: Option<Seq<u8>>) -> bool {
    ||| extension matches Some(e) && e.map_values(|b: u8| lower(b)) == y4m_extension()
    ||| contents matches Some(data) && y4m::signature().is_prefix_of(data)
}

/// The bytes of a text that may be missing.
pub open spec fn bytes_of(text: Option<&[u8]>) -> Option<Seq<u8>> {
    match text {
        Some(t) => Some(t@),
        None => None,
    }
}

/// True if the extension is that of a Y4M file.
pub fn has_y4m_extension(extension: &[u8]) -> (yes: bool)
    ensures
        yes == (extension@.map_values(|b: u8| lower(b)) == y4m_extension()),
{
    let ghost low = extension@.map_values(|b: u8| lower(b));
    if extension.len() != 3 {
        assert(low.len() != y4m_extension().len());
        return false;
    }
    let (a, b, c) = (extension[0], extension[1], extension[2]);
    let yes = (a == 0x79 || a == 0x59) && b == 0x34 && (c == 0x6D || c == 0x4D);
    proof {
        assert(low[0] == lower(a) && low[1] == lower(b) && low[2] == lower(c));
        assert(y4m_extension()[0] == 0x79 && y4m_extension()[1] == 0x34 && y4m_extension()[2]
            == 0x6D);
        if yes {
            assert(low =~= y4m_extension());
        }
    }
    yes
}

/// True if the file is already Y4M, by its extension or by the signature of its
/// contents (`None` where there is no extension, or where the contents cannot
/// be read).
pub fn is_y4m(extension: Option<&[u8]>, contents: Option<&[u8]>) -> (yes: bool)
    ensures
        yes == is_y4m_file(bytes_of(extension), bytes_of(contents)),
{
    match extension {
        Some(e) => {
            if has_y4m_extension(e) {
                return true;
            }
        },
        None => {},
    }
    match contents {
        Some(data) => {
            let magic: [u8; 9] = [0x59, 0x55, 0x56, 0x34, 0x4D, 0x50, 0x45, 0x47, 0x32];
            assert(magic@ =~= y4m::signature());
            starts_with(data, &magic)
        },
        None => false,
    }
}

/// A file is Y4M if its extension is y4m, each letter in either case, or if its contents
/// start with YUV4MPEG2; nothing else makes it so.
pub proof fn y4m_files_are_told(extension: Option<Seq<u8>>, contents: Option<Seq<u8>>)
    ensures
        is_y4m_file(extension, contents) <==> {
            ||| extension matches Some(e) && e.len() == 3 && (e[0] == 0x79 || e[0] == 0x59) && e[1]
                == 0x34 && (e[2] == 0x6D || e[2] == 0x4D)
            ||| contents matches Some(d) && d.len() >= 9 && d[0] == 0x59 && d[1] == 0x55 && d[2]
                == 0x56 && d[3] == 0x34 && d[4] == 0x4D && d[5] == 0x50 && d[6] == 0x45 && d[7]
                == 0x47 && d[8] == 0x32
        },
{
    if let Some(e) = extension {
        let low = e.map_values(|b: u8| lower(b));
        if e.len() == 3 {
            assert(low[0] == lower(e[0]) && low[1] == lower(e[1]) && low[2] == lower(e[2]));
            assert(y4m_extension()[0] == 0x79 && y4m_extension()[1] == 0x34 && y4m_extension()[2]
                == 0x6D);
            if (e[0] == 0x79 || e[0] == 0x59) && e[1] == 0x34 && (e[2] == 0x6D || e[2] == 0x4D) {
                assert(low =~= y4m_extension());
            }
        } else {
            assert(low.len() != y4m_extension().len());
        }
    }
    if let Some(d) = contents {
        if d.len() >= 9 {
            let head = d.subrange(0, 9);
            let m = y4m::signature();
            assert(m[0] == 0x59 && m[1] == 0x55 && m[2] == 0x56 && m[3] == 0x34 && m[4] == 0x4D
                && m[5] == 0x50 && m[6] == 0x45 && m[7] == 0x47 && m[8] == 0x32);
            assert(head[0] == d[0] && head[1] == d[1] && head[2] == d[2] && head[3] == d[3]
                && head[4] == d[4] && head[5] == d[5] && head[6] == d[6] && head[7] == d[7]
                && head[8] == d[8]);
            if d[0] == 0x59 && d[1] == 0x55 && d[2] == 0x56 && d[3] == 0x34 && d[4] == 0x4D && d[5]
                == 0x50 && d[6] == 0x45 && d[7] == 0x47 && d[8] == 0x32 {
                assert(head =~= m);
            }
        }
    }
}

} // verus!
