pub mod drivers;
pub mod file;
pub mod file_descriptor;
pub mod owner;

use vstd::prelude::*;

use crate::error::Status;
use crate::text::string_from;

verus! {

/// A character that separates the components of a path.
pub open spec fn is_separator(c: char) -> bool {
    c == '\\' || c == '/'
}

/// The components of `s` between its separators, in order; a string without separators is
/// one component, and an empty string one empty component.
pub open spec fn components(s: Seq<char>) -> Seq<Seq<char>>
    decreases s.len(),
{
    if s.len() == 0 {
        seq![Seq::empty()]
    } else {
        let prev = components(s.drop_last());
        if is_separator(s.last()) {
            prev.push(Seq::empty())
        } else {
            prev.update(prev.len() - 1, prev.last().push(s.last()))
        }
    }
}

/// Every character of `d` is a decimal digit.
pub open spec fn all_digits(d: Seq<char>) -> bool {
    forall|i: int| 0 <= i < d.len() ==> '0' <= #[trigger] d[i] <= '9'
}

/// The value of the decimal digits `d`.
pub open spec fn decimal_value(d: Seq<char>) -> int
    decreases d.len(),
{
    if d.len() == 0 {
        0
    } else {
        10 * decimal_value(d.drop_last()) + (d.last() as int - '0' as int)
    }
}

/// The number that `s` writes in base 10 as `isize::from_str_radix` reads it: an optional
/// sign and at least one digit, with a value within `isize`.
pub open spec fn parse_isize(s: Seq<char>) -> Option<int> {
    let signed = s.len() > 0 && (s[0] == '+' || s[0] == '-');
    let d = if signed {
        s.drop_first()
    } else {
        s
    };
    let v = if signed && s[0] == '-' {
        -decimal_value(d)
    } else {
        decimal_value(d)
    };
    if d.len() == 0 || !all_digits(d) || v < isize::MIN || v > isize::MAX {
        None
    } else {
        Some(v)
    }
}

/// What a path parses to: a drive number when it starts with `:`, written after the `:` in
/// its first component, and the path's remaining components. A trailing `/` is dropped, and
/// refused for the path of a file; a drive number that is not a number within `isize`, or
/// is negative, is refused.
pub open spec fn parsed_path(path: Seq<char>, file: bool) -> Result<(Option<int>, Seq<Seq<char>>), Status> {
    let trailing = path.len() > 0 && path.last() == '/';
    let p = if trailing {
        path.drop_last()
    } else {
        path
    };
    let comps = components(p);
    if trailing && file {
        Err(Status::InvalidArgument)
    } else if p.len() > 0 && p[0] == ':' {
        match parse_isize(comps[0].drop_first()) {
            Some(v) => if v < 0 {
                Err(Status::InvalidArgument)
            } else {
                Ok((Some(v), comps.drop_first()))
            },
            None => Err(Status::InvalidArgument),
        }
    } else {
        Ok((None, comps))
    }
}

proof fn lemma_decimal_value_grows(d: Seq<char>, n: int)
    requires
        all_digits(d),
        0 <= n <= d.len(),
    ensures
        decimal_value(d) >= decimal_value(d.take(n)) >= 0,
    decreases d.len(),
{
    if d.len() == 0 {
        assert(d.take(n) =~= d);
    } else {
        let dl = d.drop_last();
        assert(all_digits(dl)) by {
            assert forall|i: int| 0 <= i < dl.len() implies '0' <= #[trigger] dl[i] <= '9' by {
                assert(dl[i] == d[i]);
            }
        }
        assert('0' <= d.last() <= '9');
        if n == d.len() {
            assert(d.take(n) =~= d);
            lemma_decimal_value_grows(dl, 0);
            assert(dl.take(0) =~= Seq::<char>::empty());
        } else {
            lemma_decimal_value_grows(dl, n);
            assert(dl.take(n) =~= d.take(n));
            lemma_decimal_value_grows(dl, 0);
            assert(dl.take(0) =~= Seq::<char>::empty());
        }
    }
}

/// The characters of `s`.
fn chars_of(s: &str) -> (r: Vec<char>)
    ensures
        r@ == s@,
{
    let mut v: Vec<char> = Vec::new();
    for c in it: s.chars()
        invariant
            it.seq() == s@,
            v@ == s@.take(it.index() as int),
    {
        proof {
            assert(s@.take(it.index() + 1) =~= s@.take(it.index() as int).push(c));
        }
        v.push(c);
    }
    proof {
        assert(s@.take(s@.len() as int) =~= s@);
    }
    v
}

/// The drive number that `digits`, after a `:`, names: `Some` of a number within `isize`
/// that is not negative, and `None` for anything else.
fn parse_drive_number(s: &Vec<char>) -> (r: Option<isize>)
    ensures
        r matches Some(v) ==> parse_isize(s@) == Some(v as int) && v >= 0,
        r is None ==> parse_isize(s@) is None || parse_isize(s@)->0 < 0,
{
    let n = s.len();
    let mut start: usize = 0;
    let mut negative = false;
    if n > 0 && (s[0] == '+' || s[0] == '-') {
        negative = s[0] == '-';
        start = 1;
    }
    let ghost signed = s@.len() > 0 && (s@[0] == '+' || s@[0] == '-');
    let ghost d = if signed {
        s@.drop_first()
    } else {
        s@
    };
    proof {
        if signed {
            assert(d =~= s@.subrange(1, n as int));
        } else {
            assert(d =~= s@.subrange(0, n as int));
        }
    }
    if start == n {
        return None;
    }
    let mut value: usize = 0;
    let mut i: usize = start;
    while i < n
        invariant
            start <= i <= n,
            n == s@.len(),
            start == (if signed {
                1usize
            } else {
                0usize
            }),
            d == s@.subrange(start as int, n as int),
            signed == (s@.len() > 0 && (s@[0] == '+' || s@[0] == '-')),
            d == (if signed {
                s@.drop_first()
            } else {
                s@
            }),
            negative == (signed && s@[0] == '-'),
            all_digits(s@.subrange(start as int, i as int)),
            value == decimal_value(s@.subrange(start as int, i as int)),
        decreases n - i,
    {
        let c = s[i];
        if c < '0' || c > '9' {
            proof {
                assert(d[i - start] == c);
            }
            return None;
        }
        let digit = (c as u32 - '0' as u32) as usize;
        let next = match value.checked_mul(10) {
            Some(m) => m.checked_add(digit),
            None => None,
        };
        proof {
            let pre = s@.subrange(start as int, i as int);
            let ext = s@.subrange(start as int, i + 1);
            assert(ext.drop_last() =~= pre);
            assert(ext.last() == c);
            assert forall|j: int| 0 <= j < ext.len() implies '0' <= #[trigger] ext[j] <= '9' by {
                if j < pre.len() {
                    assert(ext[j] == pre[j]);
                }
            }
        }
        match next {
            Some(v) => {
                value = v;
            },
            None => {
                proof {
                    let ext = s@.subrange(start as int, i + 1);
                    assert(decimal_value(ext) == 10 * value + digit);
                    assert(decimal_value(ext) > usize::MAX);
                    if all_digits(d) {
                        lemma_decimal_value_grows(d, ext.len() as int);
                        assert(d.take(ext.len() as int) =~= ext);
                        assert(decimal_value(d) > usize::MAX);
                    }
                }
                return None;
            },
        }
        i = i + 1;
    }
    proof {
        assert(s@.subrange(start as int, n as int) == d);
    }
    if negative {
        if value == 0 {
            return Some(0);
        }
        return None;
    }
    if value > isize::MAX as usize {
        return None;
    }
    Some(value as isize)
}

/// Splits `path` into its drive number, when it starts with `:`, and its components.
pub fn parse_filepath(filepath: &str, file: bool) -> (r: Result<(Option<isize>, Vec<String>), Status>)
    ensures
        match (r, parsed_path(filepath@, file)) {
            (Err(e1), Err(e2)) => e1 == e2,
            (Ok((drive, comps)), Ok((drive2, comps2))) => (match (drive, drive2) {
                (Some(a), Some(b)) => a as int == b,
                (None, None) => true,
                _ => false,
            }) && comps@.len() == comps2.len() && forall|i: int|
                0 <= i < comps2.len() ==> (#[trigger] comps@[i])@ == comps2[i],
            _ => false,
        },
{
    let chars = chars_of(filepath);
    let mut n = chars.len();
    let trailing = n > 0 && chars[n - 1] == '/';
    if trailing {
        if file {
            return Err(Status::InvalidArgument);
        }
        n = n - 1;
    }
    let ghost p = chars@.take(n as int);
    proof {
        if trailing {
            assert(p =~= filepath@.drop_last());
        } else {
            assert(p =~= filepath@);
        }
    }
    let mut comps: Vec<Vec<char>> = Vec::new();
    let mut current: Vec<char> = Vec::new();
    let mut i: usize = 0;
    proof {
        assert(p.take(0) =~= Seq::<char>::empty());
        assert(comps@.map_values(|v: Vec<char>| v@).push(current@) =~= seq![Seq::<char>::empty()]);
    }
    while i < n
        invariant
            i <= n,
            n <= chars@.len(),
            p == chars@.take(n as int),
            components(p.take(i as int)) == comps@.map_values(|v: Vec<char>| v@).push(current@),
        decreases n - i,
    {
        let c = chars[i];
        proof {
            assert(p.take(i + 1).drop_last() =~= p.take(i as int));
            assert(p.take(i + 1).last() == c);
        }
        if c == '\\' || c == '/' {
            let done = current;
            comps.push(done);
            current = Vec::new();
            proof {
                assert(components(p.take(i + 1)) =~= comps@.map_values(|v: Vec<char>| v@).push(current@));
            }
        } else {
            current.push(c);
            proof {
                assert(components(p.take(i + 1)) =~= comps@.map_values(|v: Vec<char>| v@).push(current@));
            }
        }
        i = i + 1;
    }
    comps.push(current);
    proof {
        assert(p.take(n as int) =~= p);
        assert(components(p) =~= comps@.map_values(|v: Vec<char>| v@));
    }
    let drive = if n > 0 && chars[0] == ':' {
        proof {
            assert(p[0] == ':');
            lemma_first_component(p);
            assert(comps@.map_values(|v: Vec<char>| v@)[0] == comps@[0]@);
        }
        let first = &comps[0];
        let mut digits: Vec<char> = Vec::new();
        let mut j: usize = 1;
        while j < first.len()
            invariant
                1 <= j <= first@.len(),
                first@.len() >= 1,
                digits@ == first@.subrange(1, j as int),
            decreases first@.len() - j,
        {
            digits.push(first[j]);
            j = j + 1;
            proof {
                assert(digits@ =~= first@.subrange(1, j as int));
            }
        }
        proof {
            assert(first@[0] == ':') by {
                assert(components(p)[0] == first@);
                lemma_first_component(p);
            }
            assert(digits@ =~= first@.drop_first());
        }
        match parse_drive_number(&digits) {
            Some(v) => Some(v),
            None => {
                return Err(Status::InvalidArgument);
            },
        }
    } else {
        None
    };
    let mut result: Vec<String> = Vec::new();
    let start: usize = if drive.is_some() {
        1
    } else {
        0
    };
    let mut k: usize = start;
    while k < comps.len()
        invariant
            start <= k <= comps@.len(),
            result@.len() == k - start,
            forall|m: int| 0 <= m < result@.len() ==> (#[trigger] result@[m])@ == comps@[m + start]@,
        decreases comps@.len() - k,
    {
        let s = string_from(&comps[k]);
        result.push(s);
        k = k + 1;
    }
    Ok((drive, result))
}

/// The first component of a path that starts with a character other than a separator
/// starts with that character.
proof fn lemma_first_component(p: Seq<char>)
    requires
        p.len() > 0,
        !is_separator(p[0]),
    ensures
        components(p)[0].len() > 0,
        components(p)[0][0] == p[0],
    decreases p.len(),
{
    if p.len() == 1 {
        assert(p.drop_last() =~= Seq::<char>::empty());
    } else {
        lemma_first_component(p.drop_last());
        lemma_components_len(p.drop_last());
        assert(p.drop_last()[0] == p[0]);
    }
}

/// A path has at least one component.
proof fn lemma_components_len(p: Seq<char>)
    ensures
        components(p).len() >= 1,
    decreases p.len(),
{
    if p.len() > 0 {
        lemma_components_len(p.drop_last());
    }
}

} // verus!

verus! {

/// Open for reading.
pub const OPEN_READ: usize = 1;

/// Open for writing.
pub const OPEN_WRITE: usize = 2;

/// Open for reading and writing.
pub const OPEN_READ_WRITE: usize = 3;

/// Cut the file to length zero on opening.
pub const OPEN_TRUNCATE: usize = 4;

/// Start at the end of the file.
pub const OPEN_APPEND: usize = 8;

/// Create the file when it does not exist.
pub const OPEN_CREATE: usize = 16;

/// How a file is opened.
#[derive(Debug, Clone, Copy, PartialEq, Eq, Structural)]
pub struct OpenMode {
    pub read: bool,
    pub write: bool,
    pub truncate: bool,
    pub append: bool,
    pub create: bool,
}

/// The mode that `flags` asks for, when it asks for reading or writing or both.
pub open spec fn mode_of(flags: usize) -> OpenMode {
    OpenMode {
        read: flags & OPEN_READ != 0,
        write: flags & OPEN_WRITE != 0,
        truncate: flags & OPEN_TRUNCATE != 0,
        append: flags & OPEN_APPEND != 0,
        create: flags & OPEN_CREATE != 0,
    }
}

/// Reads the flags of an open request; flags that ask neither to read nor to write are
/// refused.
pub fn open_mode(flags: usize) -> (r: Result<OpenMode, Status>)
    ensures
        flags & OPEN_READ_WRITE == 0 ==> r == Err::<OpenMode, Status>(Status::InvalidArgument),
        flags & OPEN_READ_WRITE != 0 ==> r == Ok::<OpenMode, Status>(mode_of(flags)),
{
    if flags & OPEN_READ_WRITE == 0 {
        return Err(Status::InvalidArgument);
    }
    Ok(
        OpenMode {
            read: flags & OPEN_READ != 0,
            write: flags & OPEN_WRITE != 0,
            truncate: flags & OPEN_TRUNCATE != 0,
            append: flags & OPEN_APPEND != 0,
            create: flags & OPEN_CREATE != 0,
        },
    )
}

/// Each part of an open mode is asked for by its own flag alone: read by `OPEN_READ`, write
/// by `OPEN_WRITE`, truncate by `OPEN_TRUNCATE`, append by `OPEN_APPEND`, create by
/// `OPEN_CREATE`. So a request to read and write and truncate (C's "w+") truncates, and
/// setting or clearing one flag changes that part of the mode and no other.
pub proof fn lemma_open_flags_decide_alone(flags: usize, other: usize)
    ensures
        mode_of(flags).read == (flags & 1 != 0),
        mode_of(flags).write == (flags & 2 != 0),
        mode_of(flags).truncate == (flags & 4 != 0),
        mode_of(flags).append == (flags & 8 != 0),
        mode_of(flags).create == (flags & 16 != 0),
        mode_of(flags | OPEN_TRUNCATE).truncate,
        mode_of(flags | OPEN_TRUNCATE).read == mode_of(flags).read,
        mode_of(flags | OPEN_TRUNCATE).write == mode_of(flags).write,
        (flags & 4 == other & 4) ==> mode_of(flags).truncate == mode_of(other).truncate,
        (flags & 1 == other & 1) ==> mode_of(flags).read == mode_of(other).read,
        (flags & 2 == other & 2) ==> mode_of(flags).write == mode_of(other).write,
        (flags & 8 == other & 8) ==> mode_of(flags).append == mode_of(other).append,
        (flags & 16 == other & 16) ==> mode_of(flags).create == mode_of(other).create,
        mode_of(OPEN_READ_WRITE | OPEN_TRUNCATE) == (OpenMode {
            read: true,
            write: true,
            truncate: true,
            append: false,
            create: false,
        }),
{
    assert((flags | 4usize) & 4usize != 0) by (bit_vector);
    assert(((flags | 4usize) & 1usize != 0) == (flags & 1usize != 0)) by (bit_vector);
    assert(((flags | 4usize) & 2usize != 0) == (flags & 2usize != 0)) by (bit_vector);
    assert(7usize & 1usize != 0 && 7usize & 2usize != 0 && 7usize & 4usize != 0 && 7usize & 8usize == 0 && 7usize
        & 16usize == 0 && 3usize | 4usize == 7usize) by (bit_vector);
}

impl OpenMode {
    /// Where a file of `length` bytes opened in this mode is first read or written: its end
    /// when appending, else its start.
    pub fn starting_offset(&self, length: usize) -> (r: usize)
        ensures
            r == if self.append {
                length
            } else {
                0
            },
    {
        if self.append {
            length
        } else {
            0
        }
    }
}

} // verus!

verus! {

/// A step of a walk down a path: to the parent directory, or into the named subdirectory.
#[derive(Debug, Clone, PartialEq, Eq)]
pub enum PathMove {
    Up,
    Open(String),
}

/// The component that names the directory itself.
pub open spec fn is_dot(c: Seq<char>) -> bool {
    c == seq!['.']
}

/// The component that names the parent directory.
pub open spec fn is_dot_dot(c: Seq<char>) -> bool {
    c == seq!['.', '.']
}

/// The steps that the directory components `comps` call for, in order: none for `.`, up
/// for `..`, and into the named directory for any other; `None` stands for up.
pub open spec fn moves(comps: Seq<Seq<char>>) -> Seq<Option<Seq<char>>>
    decreases comps.len(),
{
    if comps.len() == 0 {
        Seq::empty()
    } else {
        let prev = moves(comps.drop_last());
        let c = comps.last();
        if is_dot(c) {
            prev
        } else if is_dot_dot(c) {
            prev.push(None)
        } else {
            prev.push(Some(c))
        }
    }
}

/// The step a view of `m` stands for.
pub open spec fn move_view(m: PathMove) -> Option<Seq<char>> {
    match m {
        PathMove::Up => None,
        PathMove::Open(s) => Some(s@),
    }
}

/// `s` is the component of `n` dots, for `n` one or two.
fn is_dots(s: &String, n: usize) -> (r: bool)
    requires
        n == 1 || n == 2,
    ensures
        r == (if n == 1 {
            is_dot(s@)
        } else {
            is_dot_dot(s@)
        }),
{
    let t = s.as_str();
    if t.unicode_len() != n {
        return false;
    }
    if t.get_char(0) != '.' {
        return false;
    }
    if n == 2 && t.get_char(1) != '.' {
        return false;
    }
    proof {
        if n == 1 {
            assert(s@ =~= seq!['.']);
        } else {
            assert(s@ =~= seq!['.', '.']);
        }
    }
    true
}

/// Splits the components of a path into the steps of the walk to the directory they name
/// and, when `filename` holds, the last component, which names an item of that directory.
pub fn plan_path(components: &Vec<String>, filename: bool) -> (r: (Vec<PathMove>, Option<String>))
    ensures
        ({
            let comps = components@.map_values(|s: String| s@);
            let n = comps.len();
            let dirs = if filename && n > 0 {
                comps.drop_last()
            } else {
                comps
            };
            &&& r.0@.len() == moves(dirs).len()
            &&& forall|i: int| 0 <= i < r.0@.len() ==> move_view(#[trigger] r.0@[i]) == moves(dirs)[i]
            &&& (filename && n > 0) ==> (r.1 matches Some(f) && f@ == comps.last())
            &&& !(filename && n > 0) ==> r.1 is None
        }),
{
    let ghost comps = components@.map_values(|s: String| s@);
    let mut count = components.len();
    let mut name: Option<String> = None;
    if filename && count > 0 {
        name = Some(components[count - 1].clone());
        count = count - 1;
    }
    let ghost dirs = comps.take(count as int);
    proof {
        if filename && components@.len() > 0 {
            assert(dirs =~= comps.drop_last());
        } else {
            assert(dirs =~= comps);
        }
    }
    let mut steps: Vec<PathMove> = Vec::new();
    let mut i: usize = 0;
    while i < count
        invariant
            i <= count <= components@.len(),
            comps == components@.map_values(|s: String| s@),
            steps@.len() == moves(comps.take(i as int)).len(),
            forall|k: int| 0 <= k < steps@.len() ==> move_view(#[trigger] steps@[k]) == moves(comps.take(i as int))[k],
        decreases count - i,
    {
        let c = &components[i];
        proof {
            assert(comps.take(i + 1).drop_last() =~= comps.take(i as int));
            assert(comps.take(i + 1).last() == c@);
        }
        if is_dots(c, 1) {
        } else if is_dots(c, 2) {
            steps.push(PathMove::Up);
        } else {
            steps.push(PathMove::Open(c.clone()));
        }
        i = i + 1;
    }
    (steps, name)
}

} // verus!

verus! {

/// What taking in a drive that reports `size` bytes may give: nothing for an empty drive,
/// and otherwise what mounting the volume at its start may give.
pub open spec fn sized_outcome<D: crate::device::Device>(
    drive: D,
    size: usize,
    r: Result<Option<crate::filesystem::drivers::fat32::FilesystemStarter<D>>, Status>,
) -> bool {
    &&& size == 0 ==> r == Ok::<Option<crate::filesystem::drivers::fat32::FilesystemStarter<D>>, Status>(None)
    &&& size != 0 ==> crate::filesystem::drivers::fat32::mount_outcome(drive, 0, r)
}

/// Takes in a drive that reports `size` bytes: an empty drive is ignored; any other is
/// taken whole as one partition and searched for a FAT32 volume, which is mounted when
/// found.
pub fn register_sized_drive<D: crate::device::Device>(drive: D, size: usize) -> (r: Result<
    Option<crate::filesystem::drivers::fat32::FilesystemStarter<D>>,
    Status,
>)
    requires
        drive.block(0).len() == crate::filesystem::drivers::fat32::SECTOR_SIZE
            && crate::filesystem::drivers::fat32::boot_sector_ok(crate::filesystem::drivers::fat32::marked(drive.block(0)))
            ==> crate::filesystem::drivers::fat32::layout_fits(drive.block(0)),
    ensures
        sized_outcome(drive, size, r),
{
    if size == 0 {
        return Ok(None);
    }
    crate::filesystem::drivers::fat32::mount_fat32(drive, 0)
}

/// Takes in a drive: it is asked for its size with one `IOCTRL_DRIVE_SIZE` command, and
/// what it reports decides as `register_sized_drive` does. The drive may fail the command;
/// whatever it reports, the outcome is that of a drive holding the same blocks with the
/// command recorded.
pub fn register_drive<D: crate::device::Device>(drive: D) -> (r: Result<
    Option<crate::filesystem::drivers::fat32::FilesystemStarter<D>>,
    Status,
>)
    requires
        drive.block(0).len() == crate::filesystem::drivers::fat32::SECTOR_SIZE
            && crate::filesystem::drivers::fat32::boot_sector_ok(crate::filesystem::drivers::fat32::marked(drive.block(0)))
            ==> crate::filesystem::drivers::fat32::layout_fits(drive.block(0)),
    ensures
        r matches Ok(Some(fs)) ==> fs.fat.spec_drive().commands() == drive.commands().push(
            (crate::device::IOCTRL_DRIVE_SIZE, 0),
        ),
        exists|asked: D, size: usize|
            {
                &&& forall|a: int| #[trigger] asked.block(a) == drive.block(a)
                &&& asked.commands() == drive.commands().push((crate::device::IOCTRL_DRIVE_SIZE, 0))
                &&& #[trigger] sized_outcome(asked, size, r)
            },
{
    let mut drive = drive;
    let size = match drive.ioctrl(crate::device::IOCTRL_DRIVE_SIZE, 0) {
        Ok(size) => size,
        Err(e) => {
            proof {
                assert(sized_outcome(drive, 1, Err(e)));
            }
            return Err(e);
        },
    };
    let r = register_sized_drive(drive, size);
    proof {
        assert(sized_outcome(drive, size, r));
    }
    r
}

} // verus!
