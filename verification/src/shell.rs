//! What the Windows Explorer menu is made of: the values to store in the registry.
use vstd::prelude::*;

verus! {

/// A value to store: the key it belongs to, its name, and its text.
pub struct Setting {
    pub key: String,
    pub name: String,
    pub text: String,
}

/// The model of a value to store.
#[verifier::ext_equal]
pub ghost struct Stored {
    pub key: Seq<char>,
    pub name: Seq<char>,
    pub text: Seq<char>,
}

impl View for Setting {
    type V = Stored;

    open spec fn view(&self) -> Stored {
        Stored { key: self.key@, name: self.name@, text: self.text@ }
    }
}

/// The models of values.
pub open spec fn stored(v: Seq<Setting>) -> Seq<Stored> {
    v.map_values(|s: Setting| s@)
}

/// A key of the per-user class store.
pub open spec fn class_key(path: Seq<char>) -> Seq<char> {
    "Software\\Classes\\"@ + path
}

/// A menu entry under `path`: its label, its icon, and the command it runs.
pub open spec fn verb(path: Seq<char>, label: Seq<char>, command: Seq<char>, exe: Seq<char>) -> Seq<
    Stored,
> {
    seq![
        Stored { key: class_key(path), name: ""@, text: label },
        Stored { key: class_key(path), name: "Icon"@, text: exe + ",0"@ },
        Stored { key: class_key(path) + "\\command"@, name: ""@, text: command },
    ]
}

/// A command line that runs `exe` on the chosen item and leaves its console open.
pub open spec fn console(exe: Seq<char>, word: Seq<char>) -> Seq<char> {
    "cmd /c \"\""@ + exe + "\" "@ + word + " \"%1\" & pause\""@
}

/// The identifier that the archive extensions point at.
pub open spec fn prog_id() -> Seq<char> {
    "CPGC.Archive"@
}

/// What describes an archive: its name, its icon, and what can be done with it.
pub open spec fn archive_class(exe: Seq<char>) -> Seq<Stored> {
    seq![
        Stored { key: class_key(prog_id()), name: ""@, text: "CPGC Archive"@ },
        Stored { key: class_key("CPGC.Archive\\DefaultIcon"@), name: ""@, text: exe + ",0"@ },
    ] + verb(
        "CPGC.Archive\\shell\\open"@,
        "Open with CPGC"@,
        "\""@ + exe + "\" gui --open \"%1\""@,
        exe,
    ) + verb(
        "CPGC.Archive\\shell\\extract"@,
        "Extract here"@,
        console(exe, "decompress"@),
        exe,
    ) + verb(
        "CPGC.Archive\\shell\\test"@,
        "Test CPGC archive"@,
        console(exe, "verify"@),
        exe,
    )
}

/// All values that the menu is made of, in the order they are stored.
pub open spec fn menu(exe: Seq<char>) -> Seq<Stored> {
    archive_class(exe) + seq![
        Stored { key: class_key(".cpgc"@), name: ""@, text: prog_id() },
        Stored { key: class_key(".cpas"@), name: ""@, text: prog_id() },
    ] + verb(
        "*\\shell\\CPGCCompress"@,
        "Compress with CPGC"@,
        console(exe, "compress"@),
        exe,
    ) + verb(
        "Directory\\shell\\CPGCCompress"@,
        "Compress with CPGC"@,
        console(exe, "compress"@),
        exe,
    )
}

/// Both archive extensions lead to one class, which opens its files with the program;
/// and every value belongs to the class store.
pub proof fn archives_open_with_the_program(exe: Seq<char>, i: int)
    requires
        0 <= i < menu(exe).len(),
    ensures
        ({
            let classes = "Software\\Classes\\"@;
            let m = menu(exe);
            exists|id: Seq<char>|
                {
                    &&& m.contains(Stored { key: classes + ".cpgc"@, name: ""@, text: id })
                    &&& m.contains(Stored { key: classes + ".cpas"@, name: ""@, text: id })
                    &&& m.contains(
                        (Stored {
                            key: #[trigger] (classes + (id + "\\shell\\open"@)) + "\\command"@,
                            name: ""@,
                            text: "\""@ + exe + "\" gui --open \"%1\""@,
                        }),
                    )
                }
        }),
        "Software\\Classes\\"@.is_prefix_of(menu(exe)[i].key),
{
    let m = menu(exe);
    let id = "CPGC.Archive"@;
    reveal_strlit("CPGC.Archive");
    reveal_strlit("\\shell\\open");
    reveal_strlit("CPGC.Archive\\shell\\open");
    assert(id + "\\shell\\open"@ =~= "CPGC.Archive\\shell\\open"@);
    assert(m.len() == 19);
    assert(m.contains(m[4]));
    assert(m.contains(m[11]));
    assert(m.contains(m[12]));
    let classes = "Software\\Classes\\"@;
    assert(m[11].key == classes + ".cpgc"@);
    assert(m[12].key == classes + ".cpas"@);
    assert(m[4].key == (classes + (id + "\\shell\\open"@)) + "\\command"@);
}

fn class(path: &str) -> (r: String)
    ensures
        r@ == class_key(path@),
{
    let mut k = "Software\\Classes\\".to_owned();
    k.append(path);
    k
}

fn icon(exe: &str) -> (r: String)
    ensures
        r@ == exe@ + ",0"@,
{
    let mut s = exe.to_owned();
    s.append(",0");
    s
}

fn push_setting(out: &mut Vec<Setting>, key: String, name: &str, text: String)
    ensures
        stored(final(out)@) == stored(old(out)@).push(
            (Stored { key: key@, name: name@, text: text@ }),
        ),
{
    out.push(Setting { key, name: name.to_owned(), text });
    assert(stored(out@) =~= stored(old(out)@).push(
        Stored { key: key@, name: name@, text: text@ },
    ));
}

fn push_verb(out: &mut Vec<Setting>, path: &str, label: &str, command: String, exe: &str)
    ensures
        stored(final(out)@) == stored(old(out)@) + verb(path@, label@, command@, exe@),
{
    push_setting(out, class(path), "", label.to_owned());
    push_setting(out, class(path), "Icon", icon(exe));
    let mut key = class(path);
    key.append("\\command");
    push_setting(out, key, "", command);
    assert(stored(out@) =~= stored(old(out)@) + verb(path@, label@, command@, exe@));
}

fn run_in_console(exe: &str, word: &str) -> (r: String)
    ensures
        r@ == console(exe@, word@),
{
    let mut s = "cmd /c \"\"".to_owned();
    s.append(exe);
    s.append("\" ");
    s.append(word);
    s.append(" \"%1\" & pause\"");
    s
}

fn push_archive_class(out: &mut Vec<Setting>, exe: &str)
    ensures
        stored(final(out)@) == stored(old(out)@) + archive_class(exe@),
{
    push_setting(out, class("CPGC.Archive"), "", "CPGC Archive".to_owned());
    push_setting(out, class("CPGC.Archive\\DefaultIcon"), "", icon(exe));
    let mut open = "\"".to_owned();
    open.append(exe);
    open.append("\" gui --open \"%1\"");
    push_verb(out, "CPGC.Archive\\shell\\open", "Open with CPGC", open, exe);
    push_verb(
        out,
        "CPGC.Archive\\shell\\extract",
        "Extract here",
        run_in_console(exe, "decompress"),
        exe,
    );
    push_verb(
        out,
        "CPGC.Archive\\shell\\test",
        "Test CPGC archive",
        run_in_console(exe, "verify"),
        exe,
    );
    assert(stored(out@) =~= stored(old(out)@) + archive_class(exe@));
}

/// The values that the menu is made of, for the program at `exe`.
pub fn settings(exe: &str) -> (r: Vec<Setting>)
    ensures
        stored(r@) == menu(exe@),
{
    let mut out: Vec<Setting> = Vec::new();
    push_archive_class(&mut out, exe);
    push_setting(&mut out, class(".cpgc"), "", "CPGC.Archive".to_owned());
    push_setting(&mut out, class(".cpas"), "", "CPGC.Archive".to_owned());
    push_verb(
        &mut out,
        "*\\shell\\CPGCCompress",
        "Compress with CPGC",
        run_in_console(exe, "compress"),
        exe,
    );
    push_verb(
        &mut out,
        "Directory\\shell\\CPGCCompress",
        "Compress with CPGC",
        run_in_console(exe, "compress"),
        exe,
    );
    assert(stored(out@) =~= menu(exe@));
    out
}

} // verus!
