use vstd::prelude::*;
use vstd::utf8::{decode_utf8, valid_utf8};
use crate::text::{
    ascii, ascii_bytes, bytes_equal, contains_byte, find_byte, first_index, has_prefix,
    lemma_first_index, lemma_split_step, split_on, split_state, starts_with, string_from_utf8,
};

verus! {

broadcast use vstd::string::group_string_axioms;

/// An application found in a `.desktop` file.
#[derive(Debug, Clone)]
pub struct DesktopEntry {
    pub name: String,
    pub icon: Option<String>,
    pub cmd: String,
    pub terminal: bool,
}

/// A desktop entry seen through the texts it holds.
pub struct DesktopEntryView {
    pub name: Seq<char>,
    pub icon: Option<Seq<char>>,
    pub cmd: Seq<char>,
    pub terminal: bool,
}

impl View for DesktopEntry {
    type V = DesktopEntryView;

    open spec fn view(&self) -> DesktopEntryView {
        DesktopEntryView {
            name: self.name@,
            icon: match self.icon {
                Some(i) => Some(i@),
                None => None,
            },
            cmd: self.cmd@,
            terminal: self.terminal,
        }
    }
}

/// Why a desktop file could not be read as an entry.
#[derive(Debug, Clone, Copy, PartialEq, Eq, Structural)]
pub enum DesktopFileError {
    /// The value of a `Name`, `Icon` or `Exec` key is not valid UTF-8.
    InvalidUtf8,
}

/// What has been gathered from the lines of a desktop file read so far.
pub struct DesktopScan {
    /// Inside the `[Desktop Entry]` group.
    pub in_entry: bool,
    pub name: Option<Seq<u8>>,
    pub icon: Option<Seq<u8>>,
    pub cmd: Option<Seq<u8>>,
    pub terminal: bool,
    /// `Type=Application` was seen last for the `Type` key.
    pub is_app: bool,
    /// A `Name`, `Icon` or `Exec` value was not valid UTF-8.
    pub failed: bool,
}

pub open spec fn empty_scan() -> DesktopScan {
    DesktopScan {
        in_entry: false,
        name: None,
        icon: None,
        cmd: None,
        terminal: false,
        is_app: false,
        failed: false,
    }
}

/// `line` without its leading spaces and tabs.
pub open spec fn strip_blanks(line: Seq<u8>) -> Seq<u8>
    decreases line.len(),
{
    if line.len() > 0 && (line[0] == 32u8 || line[0] == 9u8) {
        strip_blanks(line.drop_first())
    } else {
        line
    }
}

/// The key of a `key=value` line: what comes before its first `=`.
pub open spec fn key_of(line: Seq<u8>) -> Seq<u8> {
    line.take(first_index(line, 61u8))
}

/// The value of a `key=value` line: what comes after its first `=`.
pub open spec fn value_of(line: Seq<u8>) -> Seq<u8> {
    line.skip(first_index(line, 61u8) + 1)
}

/// The scan after one more line of the file.
pub open spec fn scan_line(st: DesktopScan, raw: Seq<u8>) -> DesktopScan {
    let line = strip_blanks(raw);
    if st.failed || line.len() == 0 {
        st
    } else if line[0] == 91u8 {
        // a group header: `[...]`
        DesktopScan { in_entry: has_prefix(line, ascii("[Desktop Entry]"@)), ..st }
    } else if line[0] == 35u8 || !line.contains(61u8) || !st.in_entry {
        // a comment, a line without `=`, or a key of another group
        st
    } else {
        let key = key_of(line);
        let value = value_of(line);
        if key == ascii("Name"@) {
            if valid_utf8(value) {
                DesktopScan { name: Some(value), ..st }
            } else {
                DesktopScan { failed: true, ..st }
            }
        } else if key == ascii("Icon"@) {
            if valid_utf8(value) {
                DesktopScan { icon: Some(value), ..st }
            } else {
                DesktopScan { failed: true, ..st }
            }
        } else if key == ascii("Type"@) {
            DesktopScan { is_app: value == ascii("Application"@), ..st }
        } else if key == ascii("Terminal"@) {
            DesktopScan { terminal: value == ascii("true"@), ..st }
        } else if key == ascii("Exec"@) {
            if value.contains(37u8) {
                // field codes such as `%f` are not supported
                st
            } else if valid_utf8(value) {
                DesktopScan { cmd: Some(value), ..st }
            } else {
                DesktopScan { failed: true, ..st }
            }
        } else {
            st
        }
    }
}

/// The scan after all of `lines`, in order.
pub open spec fn scan_lines(lines: Seq<Seq<u8>>) -> DesktopScan
    decreases lines.len(),
{
    if lines.len() == 0 {
        empty_scan()
    } else {
        scan_line(scan_lines(lines.drop_last()), lines.last())
    }
}

/// The scan of a whole file: its lines are what lies between newlines.
pub open spec fn scan_file(content: Seq<u8>) -> DesktopScan {
    scan_lines(split_on(content, 10u8))
}

/// The entry that a scan describes, when it names an application with a
/// command.
pub open spec fn entry_of(st: DesktopScan) -> Option<DesktopEntryView> {
    if st.name is Some && st.cmd is Some && st.is_app {
        Some(
            DesktopEntryView {
                name: decode_utf8(st.name->0),
                icon: match st.icon {
                    Some(i) => Some(decode_utf8(i)),
                    None => None,
                },
                cmd: decode_utf8(st.cmd->0),
                terminal: st.terminal,
            },
        )
    } else {
        None
    }
}

/// What reading a desktop file gives: an error when one of the values it
/// keeps is not UTF-8, else the entry it describes, if any.
pub open spec fn desktop_file_result(content: Seq<u8>) -> Result<Option<DesktopEntryView>, DesktopFileError> {
    if scan_file(content).failed {
        Err(DesktopFileError::InvalidUtf8)
    } else {
        Ok(entry_of(scan_file(content)))
    }
}

/// The decoded values gathered so far, next to the scan that they decode.
struct Gathered {
    in_entry: bool,
    name: Option<String>,
    icon: Option<String>,
    cmd: Option<String>,
    terminal: bool,
    is_app: bool,
}

pub open spec fn decodes(text: Option<String>, raw: Option<Seq<u8>>) -> bool {
    match (text, raw) {
        (Some(t), Some(r)) => valid_utf8(r) && t@ == decode_utf8(r),
        (None, None) => true,
        _ => false,
    }
}

impl Gathered {
    spec fn matches(&self, st: DesktopScan) -> bool {
        &&& !st.failed
        &&& self.in_entry == st.in_entry
        &&& decodes(self.name, st.name)
        &&& decodes(self.icon, st.icon)
        &&& decodes(self.cmd, st.cmd)
        &&& self.terminal == st.terminal
        &&& self.is_app == st.is_app
    }

    /// Takes one line into account; `false` when a kept value is not UTF-8.
    fn take_line(&mut self, raw: &[u8], Ghost(st): Ghost<DesktopScan>) -> (ok: bool)
        requires
            old(self).matches(st),
        ensures
            ok == !scan_line(st, raw@).failed,
            ok ==> final(self).matches(scan_line(st, raw@)),
    {
        // strip leading blanks
        let mut start: usize = 0;
        assert(raw@.skip(0) =~= raw@);
        while start < raw.len() && (raw[start] == 32u8 || raw[start] == 9u8)
            invariant
                start <= raw@.len(),
                strip_blanks(raw@) == strip_blanks(raw@.skip(start as int)),
            decreases raw@.len() - start,
        {
            proof {
                assert(raw@.skip(start as int).drop_first() =~= raw@.skip(start + 1));
            }
            start += 1;
        }
        let line = vstd::slice::slice_subrange(raw, start, raw.len());
        proof {
            assert(line@ =~= raw@.skip(start as int));
            assert(strip_blanks(line@) == line@);
        }
        if line.len() == 0 {
            return true;
        }
        if line[0] == 91u8 {
            proof {
                reveal_strlit("[Desktop Entry]");
            }
            self.in_entry = starts_with(line, ascii_bytes("[Desktop Entry]"));
            return true;
        }
        if line[0] == 35u8 || !contains_byte(line, 61u8) || !self.in_entry {
            return true;
        }
        let eq = find_byte(line, 61u8);
        proof {
            lemma_first_index(line@, 61u8);
        }
        let key = vstd::slice::slice_subrange(line, 0, eq);
        let value = vstd::slice::slice_subrange(line, eq + 1, line.len());
        proof {
            assert(key@ =~= key_of(line@));
            assert(value@ =~= value_of(line@));
            reveal_strlit("Name");
            reveal_strlit("Icon");
            reveal_strlit("Type");
            reveal_strlit("Terminal");
            reveal_strlit("Exec");
            reveal_strlit("Application");
            reveal_strlit("true");
        }
        if bytes_equal(key, ascii_bytes("Name")) {
            match string_from_utf8(vstd::slice::slice_to_vec(value)) {
                Some(s) => {
                    self.name = Some(s);
                    true
                },
                None => false,
            }
        } else if bytes_equal(key, ascii_bytes("Icon")) {
            match string_from_utf8(vstd::slice::slice_to_vec(value)) {
                Some(s) => {
                    self.icon = Some(s);
                    true
                },
                None => false,
            }
        } else if bytes_equal(key, ascii_bytes("Type")) {
            self.is_app = bytes_equal(value, ascii_bytes("Application"));
            true
        } else if bytes_equal(key, ascii_bytes("Terminal")) {
            self.terminal = bytes_equal(value, ascii_bytes("true"));
            true
        } else if bytes_equal(key, ascii_bytes("Exec")) {
            if contains_byte(value, 37u8) {
                return true;
            }
            match string_from_utf8(vstd::slice::slice_to_vec(value)) {
                Some(s) => {
                    self.cmd = Some(s);
                    true
                },
                None => false,
            }
        } else {
            true
        }
    }
}

/// Reads the contents of a desktop file: the entry it describes when it has
/// a `Name`, an `Exec` without field codes and `Type=Application` in its
/// `[Desktop Entry]` group, `None` when one of these is missing, and an
/// error when a `Name`, `Icon` or `Exec` value is not UTF-8.
pub fn parse_desktop_entry(content: &[u8]) -> (res: Result<Option<DesktopEntry>, DesktopFileError>)
    ensures
        match (res, desktop_file_result(content@)) {
            (Ok(Some(e)), Ok(Some(v))) => e@ == v,
            (Ok(None), Ok(None)) => true,
            (Err(e1), Err(e2)) => e1 == e2,
            _ => false,
        },
{
    let mut g = Gathered {
        in_entry: false,
        name: None,
        icon: None,
        cmd: None,
        terminal: false,
        is_app: false,
    };
    let ghost mut done: Seq<Seq<u8>> = Seq::empty();
    let mut start: usize = 0;
    let mut i: usize = 0;
    while i < content.len()
        invariant
            start <= i <= content@.len(),
            split_state(content@.take(i as int), 10u8) == (done, content@.subrange(start as int, i as int)),
            g.matches(scan_lines(done)),
        decreases content@.len() - i,
    {
        proof {
            lemma_split_step(content@, i as int, 10u8);
        }
        if content[i] == 10u8 {
            let line = vstd::slice::slice_subrange(content, start, i);
            if !g.take_line(line, Ghost(scan_lines(done))) {
                proof {
                    assert(done.push(line@).drop_last() =~= done);
                    lemma_failure_sticks(done.push(line@), content@, i as int + 1);
                }
                return Err(DesktopFileError::InvalidUtf8);
            }
            proof {
                assert(done.push(line@).drop_last() =~= done);
                done = done.push(line@);
            }
            start = i + 1;
        } else {
            proof {
                assert(content@.subrange(start as int, i + 1) =~= content@.subrange(start as int, i as int).push(content@[i as int]));
            }
        }
        i += 1;
    }
    let line = vstd::slice::slice_subrange(content, start, content.len());
    proof {
        assert(content@.take(content@.len() as int) =~= content@);
        assert(split_on(content@, 10u8) =~= done.push(line@));
        assert(done.push(line@).drop_last() =~= done);
    }
    if !g.take_line(line, Ghost(scan_lines(done))) {
        return Err(DesktopFileError::InvalidUtf8);
    }
    match (g.name, g.cmd) {
        (Some(name), Some(cmd)) => {
            if !g.is_app {
                return Ok(None);
            }
            Ok(Some(DesktopEntry { name, cmd, icon: g.icon, terminal: g.terminal }))
        },
        _ => Ok(None),
    }
}

/// Once a value fails to decode, the rest of the file changes nothing.
proof fn lemma_failure_sticks(prefix: Seq<Seq<u8>>, content: Seq<u8>, i: int)
    requires
        0 <= i <= content.len(),
        scan_lines(prefix).failed,
        split_state(content.take(i), 10u8).0 == prefix,
    ensures
        scan_file(content).failed,
{
    lemma_split_prefix(content, i, content.len() as int, 10u8);
    assert(content.take(content.len() as int) =~= content);
    let lines = split_on(content, 10u8);
    assert(lines.take(prefix.len() as int) =~= prefix);
    lemma_failed_prefix(lines, prefix.len() as int);
}

/// The pieces closed after `i` elements stay the first pieces later on.
proof fn lemma_split_prefix<T>(s: Seq<T>, i: int, j: int, sep: T)
    requires
        0 <= i <= j <= s.len(),
    ensures
        split_state(s.take(i), sep).0.len() <= split_state(s.take(j), sep).0.len(),
        split_state(s.take(j), sep).0.take(split_state(s.take(i), sep).0.len() as int)
            == split_state(s.take(i), sep).0,
    decreases j - i,
{
    if j > i {
        lemma_split_prefix(s, i, j - 1, sep);
        lemma_split_step(s, j - 1, sep);
        let n = split_state(s.take(i), sep).0.len() as int;
        let prev = split_state(s.take(j - 1), sep).0;
        assert(prev.push(split_state(s.take(j - 1), sep).1).take(n) =~= prev.take(n));
    } else {
        assert(split_state(s.take(j), sep).0.take(split_state(s.take(j), sep).0.len() as int)
            =~= split_state(s.take(j), sep).0);
    }
}

/// A failed scan of the first `k` lines stays failed for all of them.
proof fn lemma_failed_prefix(lines: Seq<Seq<u8>>, k: int)
    requires
        0 <= k <= lines.len(),
        scan_lines(lines.take(k)).failed,
    ensures
        scan_lines(lines).failed,
    decreases lines.len(),
{
    if lines.len() == k {
        assert(lines.take(k) =~= lines);
    } else {
        assert(lines.drop_last().take(k) =~= lines.take(k));
        lemma_failed_prefix(lines.drop_last(), k);
    }
}

} // verus!

verus! {

/// The data directories used when `XDG_DATA_DIRS` is not set.
pub open spec fn default_data_dirs() -> Seq<Seq<char>> {
    seq!["/usr/local/share"@, "/usr/share"@, "~/.local/share"@]
}

/// The XDG data directories: the `:`-separated pieces of the value of
/// `XDG_DATA_DIRS` when it is set (and valid Unicode), else the defaults.
pub fn data_dirs(env_value: Option<&str>) -> (res: Vec<String>)
    ensures
        res@.map_values(|p: String| p@) == match env_value {
            Some(v) => split_on(v@, ':'),
            None => default_data_dirs(),
        },
{
    match env_value {
        Some(v) => crate::text::split_text(v, ':'),
        None => {
            let mut dirs: Vec<String> = Vec::new();
            dirs.push("/usr/local/share".to_owned());
            dirs.push("/usr/share".to_owned());
            dirs.push("~/.local/share".to_owned());
            assert(dirs@.map_values(|p: String| p@) =~= default_data_dirs());
            dirs
        },
    }
}

} // verus!

verus! {

/// A line that never changes a scan: empty once leading blanks are dropped,
/// or a comment.
pub open spec fn is_ignored_line(line: Seq<u8>) -> bool {
    strip_blanks(line).len() == 0 || strip_blanks(line)[0] == 35u8
}

/// Blank lines and comments can be put anywhere in a desktop file without
/// changing what is read from it.
pub proof fn lemma_ignored_line(lines: Seq<Seq<u8>>, k: int, line: Seq<u8>)
    requires
        0 <= k <= lines.len(),
        is_ignored_line(line),
    ensures
        scan_lines(lines.insert(k, line)) == scan_lines(lines),
    decreases lines.len(),
{
    let longer = lines.insert(k, line);
    if k == lines.len() {
        assert(longer.drop_last() =~= lines);
    } else {
        lemma_ignored_line(lines.drop_last(), k, line);
        assert(longer.drop_last() =~= lines.drop_last().insert(k, line));
        assert(longer.last() == lines.last());
    }
}

} // verus!

verus! {

/// The line `key=value`.
pub open spec fn key_line(key: Seq<u8>, value: Seq<u8>) -> Seq<u8> {
    key + seq![61u8] + value
}

/// A key that can start a `key=value` line: not empty, without `=` or a
/// newline, and not starting with a blank, `[` or `#`.
pub open spec fn plain_key(key: Seq<u8>) -> bool {
    &&& key.len() > 0
    &&& forall|i: int| 0 <= i < key.len() ==> #[trigger] key[i] != 61u8 && key[i] != 10u8
    &&& key[0] != 32u8 && key[0] != 9u8 && key[0] != 91u8 && key[0] != 35u8
}

/// A `key=value` line is read back as that key and that value.
proof fn lemma_key_line(k: Seq<u8>, v: Seq<u8>)
    requires
        plain_key(k),
    ensures
        strip_blanks(key_line(k, v)) == key_line(k, v),
        key_line(k, v).len() > 0,
        key_line(k, v)[0] == k[0],
        key_line(k, v).contains(61u8),
        key_of(key_line(k, v)) == k,
        value_of(key_line(k, v)) == v,
{
    let line = key_line(k, v);
    lemma_first_index(line, 61u8);
    assert(line[k.len() as int] == 61u8);
    let f = first_index(line, 61u8);
    if f < k.len() {
        assert(line[f] == k[f]);
    }
    assert(f == k.len());
    assert(line.take(f) =~= k);
    assert(line.skip(f + 1) =~= v);
    assert(line[0] == k[0]);
}

/// The keys that a scan looks at are plain and differ from each other.
proof fn lemma_keys()
    ensures
        plain_key(ascii("Name"@)),
        plain_key(ascii("Type"@)),
        plain_key(ascii("Exec"@)),
        ascii("Name"@) != ascii("Icon"@),
        ascii("Type"@) != ascii("Name"@),
        ascii("Type"@) != ascii("Icon"@),
        ascii("Exec"@) != ascii("Name"@),
        ascii("Exec"@) != ascii("Icon"@),
        ascii("Exec"@) != ascii("Type"@),
        ascii("Exec"@) != ascii("Terminal"@),
        plain_key(ascii("Icon"@)),
        plain_key(ascii("Terminal"@)),
        ascii("Terminal"@) != ascii("Name"@),
        ascii("Terminal"@) != ascii("Icon"@),
        ascii("Terminal"@) != ascii("Type"@),
{
    reveal_strlit("Name");
    reveal_strlit("Icon");
    reveal_strlit("Type");
    reveal_strlit("Exec");
    reveal_strlit("Terminal");
    assert(ascii("Name"@)[0] != ascii("Icon"@)[0]);
    assert(ascii("Type"@)[0] != ascii("Name"@)[0]);
    assert(ascii("Type"@)[0] != ascii("Icon"@)[0]);
    assert(ascii("Exec"@)[0] != ascii("Name"@)[0]);
    assert(ascii("Exec"@)[0] != ascii("Icon"@)[0]);
    assert(ascii("Exec"@)[0] != ascii("Type"@)[0]);
    assert(ascii("Exec"@).len() != ascii("Terminal"@).len());
    assert(ascii("Name"@).len() != ascii("Terminal"@).len());
    assert(ascii("Icon"@).len() != ascii("Terminal"@).len());
    assert(ascii("Type"@).len() != ascii("Terminal"@).len());
}

/// Inside the `[Desktop Entry]` group, a line `Exec=v` whose value holds no
/// `%` and is UTF-8 sets the command to `v`, whatever else the value holds.
pub proof fn lemma_exec_line(st: DesktopScan, v: Seq<u8>)
    requires
        st.in_entry,
        !st.failed,
        !v.contains(37u8),
        valid_utf8(v),
    ensures
        scan_line(st, key_line(ascii("Exec"@), v)) == (DesktopScan { cmd: Some(v), ..st }),
{
    lemma_keys();
    lemma_key_line(ascii("Exec"@), v);
}

/// Inside the `[Desktop Entry]` group, a line `Exec=v` whose value holds a
/// `%` (a field code) is passed over.
pub proof fn lemma_exec_line_with_field_code(st: DesktopScan, v: Seq<u8>)
    requires
        st.in_entry,
        !st.failed,
        v.contains(37u8),
    ensures
        scan_line(st, key_line(ascii("Exec"@), v)) == st,
{
    lemma_keys();
    lemma_key_line(ascii("Exec"@), v);
}

/// Inside the `[Desktop Entry]` group, a line `Icon=i` whose value is UTF-8
/// sets the icon to `i`.
pub proof fn lemma_icon_line(st: DesktopScan, i: Seq<u8>)
    requires
        st.in_entry,
        !st.failed,
        valid_utf8(i),
    ensures
        scan_line(st, key_line(ascii("Icon"@), i)) == (DesktopScan { icon: Some(i), ..st }),
{
    lemma_keys();
    lemma_key_line(ascii("Icon"@), i);
}

/// Inside the `[Desktop Entry]` group, a line `Terminal=t` records whether
/// `t` is `true`.
pub proof fn lemma_terminal_line(st: DesktopScan, t: Seq<u8>)
    requires
        st.in_entry,
        !st.failed,
    ensures
        scan_line(st, key_line(ascii("Terminal"@), t)) == (DesktopScan { terminal: t == ascii("true"@), ..st }),
{
    lemma_keys();
    lemma_key_line(ascii("Terminal"@), t);
}

/// Inside the `[Desktop Entry]` group, a `Name`, `Icon` or `Exec` line whose
/// value is not UTF-8 makes the file unreadable (for `Exec`, unless the
/// value holds a `%`).
pub proof fn lemma_invalid_value_line(st: DesktopScan, v: Seq<u8>)
    requires
        st.in_entry,
        !st.failed,
        !valid_utf8(v),
    ensures
        scan_line(st, key_line(ascii("Name"@), v)).failed,
        scan_line(st, key_line(ascii("Icon"@), v)).failed,
        !v.contains(37u8) ==> scan_line(st, key_line(ascii("Exec"@), v)).failed,
{
    lemma_keys();
    lemma_key_line(ascii("Name"@), v);
    lemma_key_line(ascii("Icon"@), v);
    lemma_key_line(ascii("Exec"@), v);
}

/// A group header opens the `[Desktop Entry]` group when it starts with
/// `[Desktop Entry]`, and leaves it for any other group.
pub proof fn lemma_group_header(st: DesktopScan, h: Seq<u8>)
    requires
        !st.failed,
        h.len() > 0,
        h[0] == 91u8,
    ensures
        scan_line(st, h) == (DesktopScan { in_entry: has_prefix(h, ascii("[Desktop Entry]"@)), ..st }),
{
    assert(strip_blanks(h) == h);
}

/// Outside the `[Desktop Entry]` group, `key=value` lines change nothing.
pub proof fn lemma_other_group_line(st: DesktopScan, k: Seq<u8>, v: Seq<u8>)
    requires
        !st.in_entry,
        plain_key(k),
    ensures
        scan_line(st, key_line(k, v)) == st,
{
    lemma_key_line(k, v);
}

/// Inside the `[Desktop Entry]` group, a line `Name=n` whose value is UTF-8
/// sets the name to `n`.
pub proof fn lemma_name_line(st: DesktopScan, n: Seq<u8>)
    requires
        st.in_entry,
        !st.failed,
        valid_utf8(n),
    ensures
        scan_line(st, key_line(ascii("Name"@), n)) == (DesktopScan { name: Some(n), ..st }),
{
    lemma_keys();
    lemma_key_line(ascii("Name"@), n);
}

/// Inside the `[Desktop Entry]` group, a line `Type=t` records whether `t`
/// is `Application`.
pub proof fn lemma_type_line(st: DesktopScan, t: Seq<u8>)
    requires
        st.in_entry,
        !st.failed,
    ensures
        scan_line(st, key_line(ascii("Type"@), t)) == (DesktopScan { is_app: t == ascii("Application"@), ..st }),
{
    lemma_keys();
    lemma_key_line(ascii("Type"@), t);
}

/// One more line at the end of a file is read after the others.
proof fn lemma_scan_file_append(c: Seq<u8>, line: Seq<u8>)
    requires
        !line.contains(10u8),
    ensures
        scan_file(c + seq![10u8] + line) == scan_line(scan_file(c), line),
{
    let with_nl = c + seq![10u8];
    assert(with_nl.drop_last() =~= c);
    crate::paths::lemma_split_append(with_nl, line, 10u8);
    assert(Seq::<u8>::empty() + line =~= line);
    let lines = split_on(c + seq![10u8] + line, 10u8);
    assert(lines =~= split_on(c, 10u8).push(line));
    assert(lines.drop_last() =~= split_on(c, 10u8));
}

/// A file of one line is read as that line.
proof fn lemma_scan_file_single(line: Seq<u8>)
    requires
        !line.contains(10u8),
    ensures
        scan_file(line) == scan_line(empty_scan(), line),
{
    let e = Seq::<u8>::empty();
    assert(split_state(e, 10u8) == (Seq::<Seq<u8>>::empty(), e));
    crate::paths::lemma_split_append(e, line, 10u8);
    assert(e + line =~= line);
    assert(split_on(line, 10u8) =~= seq![line]);
    assert(seq![line].drop_last() =~= Seq::<Seq<u8>>::empty());
    assert(seq![line].last() == line);
    assert(scan_lines(Seq::<Seq<u8>>::empty()) == empty_scan());
    assert(scan_lines(seq![line]) == scan_line(empty_scan(), line));
}

/// `key=value` holds no newline when neither the key nor the value does.
proof fn lemma_key_line_one_line(k: Seq<u8>, v: Seq<u8>)
    requires
        plain_key(k),
        !v.contains(10u8),
    ensures
        !key_line(k, v).contains(10u8),
{
    let line = key_line(k, v);
    if line.contains(10u8) {
        let j = choose|j: int| 0 <= j < line.len() && line[j] == 10u8;
        if j < k.len() {
            assert(line[j] == k[j]);
        } else if j > k.len() {
            assert(line[j] == v[j - k.len() - 1]);
        }
    }
}

/// A file with a `[Desktop Entry]` group that holds `Type=Application`,
/// `Name=n` and `Exec=v`, with UTF-8 values on one line each and no `%` in
/// the command, is read as the application named `n` that runs `v`, with
/// no icon and not in a terminal.
pub proof fn lemma_application_file(n: Seq<u8>, v: Seq<u8>)
    requires
        valid_utf8(n),
        valid_utf8(v),
        !n.contains(10u8),
        !v.contains(10u8),
        !v.contains(37u8),
    ensures
        desktop_file_result(
            ascii("[Desktop Entry]"@) + seq![10u8] + key_line(ascii("Type"@), ascii("Application"@)) + seq![10u8]
                + key_line(ascii("Name"@), n) + seq![10u8] + key_line(ascii("Exec"@), v) + seq![10u8],
        ) == Ok::<Option<DesktopEntryView>, DesktopFileError>(
            Some(DesktopEntryView { name: decode_utf8(n), icon: None, cmd: decode_utf8(v), terminal: false }),
        ),
{
    reveal_strlit("[Desktop Entry]");
    reveal_strlit("Application");
    let header = ascii("[Desktop Entry]"@);
    let app = ascii("Application"@);
    assert(!header.contains(10u8));
    assert(!app.contains(10u8));
    lemma_keys();
    let type_line = key_line(ascii("Type"@), app);
    let name_line = key_line(ascii("Name"@), n);
    let exec_line = key_line(ascii("Exec"@), v);
    lemma_key_line_one_line(ascii("Type"@), app);
    lemma_key_line_one_line(ascii("Name"@), n);
    lemma_key_line_one_line(ascii("Exec"@), v);
    let nl = seq![10u8];
    let c0 = header;
    let c1 = c0 + nl + type_line;
    let c2 = c1 + nl + name_line;
    let c3 = c2 + nl + exec_line;
    let e = Seq::<u8>::empty();
    assert(c3 + nl + e =~= c3 + nl);
    lemma_scan_file_single(c0);
    lemma_scan_file_append(c0, type_line);
    lemma_scan_file_append(c1, name_line);
    lemma_scan_file_append(c2, exec_line);
    assert(!e.contains(10u8));
    lemma_scan_file_append(c3, e);
    // the header opens the group
    assert(strip_blanks(header) == header);
    assert(header.take(header.len() as int) =~= header);
    let s0 = DesktopScan { in_entry: true, ..empty_scan() };
    assert(scan_file(c0) == s0);
    lemma_type_line(s0, app);
    let s1 = DesktopScan { is_app: true, ..s0 };
    assert(scan_file(c1) == s1);
    lemma_name_line(s1, n);
    let s2 = DesktopScan { name: Some(n), ..s1 };
    assert(scan_file(c2) == s2);
    lemma_exec_line(s2, v);
    let s3 = DesktopScan { cmd: Some(v), ..s2 };
    assert(scan_file(c3) == s3);
    assert(scan_file(c3 + nl + e) == s3);
}

} // verus!
