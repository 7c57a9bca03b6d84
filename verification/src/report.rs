//! The duplicate-groups report: one header line per group, then each
//! member's device and inode followed by its paths, with embedded
//! newlines escaped onto a single sentinel-marked line.

use vstd::prelude::*;

use vstd::string::StrSliceExecFns;

use crate::fs_entry::{EntryView, FSEntry};
use crate::search::group_views;

verus! {

/// Relies on String::push: appends exactly the one character.
#[verifier::external_body]
fn push_char(s: &mut String, c: char)
    ensures
        final(s)@ == old(s)@.push(c),
{
    s.push(c);
}

/// The character for one decimal digit.
pub open spec fn digit_char(d: int) -> char {
    ((d + 48) as u8) as char
}

/// The decimal representation of a number, most significant digit first.
pub open spec fn dec_digits(n: int) -> Seq<char>
    decreases n,
{
    if n < 10 {
        seq![digit_char(if n < 0 {
            0
        } else {
            n
        })]
    } else {
        dec_digits(n / 10).push(digit_char(n % 10))
    }
}

/// Formats a number in decimal.
pub fn u64_to_string(n: u64) -> (r: String)
    ensures
        r@ == dec_digits(n as int),
{
    let mut digits: Vec<char> = Vec::new();
    let mut m = n;
    if m == 0 {
        digits.push('0');
        proof {
            assert(digit_char(0) == '0');
            assert(digits@.reverse() =~= dec_digits(0));
        }
    }
    while m > 0
        invariant
            m > 0 ==> dec_digits(n as int) == dec_digits(m as int) + digits@.reverse(),
            m == 0 ==> dec_digits(n as int) == digits@.reverse(),
        decreases m,
    {
        let ghost digits_prev = digits@;
        let ghost m_prev = m as int;
        let d = (m % 10) as u8;
        let c = (48u8 + d) as char;
        proof {
            assert(c == digit_char(m_prev % 10));
        }
        digits.push(c);
        m = m / 10;
        proof {
            assert(digits@.reverse() =~= seq![c] + digits_prev.reverse());
            if m > 0 {
                assert(m_prev >= 10);
                assert(dec_digits(m_prev) == dec_digits(m_prev / 10).push(digit_char(m_prev % 10)));
                assert(dec_digits(m as int) + digits@.reverse() =~= (dec_digits(m as int).push(c))
                    + digits_prev.reverse());
            } else {
                assert(m_prev < 10);
                assert(dec_digits(m_prev) =~= seq![c]);
                assert(digits@.reverse() =~= dec_digits(m_prev) + digits_prev.reverse());
            }
        }
    }
    let mut r = String::new();
    proof {
        assert(r@ + digits@.reverse() =~= dec_digits(n as int));
    }
    loop
        invariant
            r@ + digits@.reverse() == dec_digits(n as int),
        ensures
            r@ == dec_digits(n as int),
        decreases digits@.len(),
    {
        let ghost digits_prev = digits@;
        match digits.pop() {
            Some(c) => {
                push_char(&mut r, c);
                proof {
                    assert(digits_prev.reverse() =~= seq![c] + digits@.reverse());
                    assert(r@ + digits@.reverse() =~= dec_digits(n as int));
                }
            },
            None => {
                proof {
                    assert(digits@.reverse() =~= Seq::<char>::empty());
                    assert(r@ =~= r@ + digits@.reverse());
                }
                break ;
            },
        }
    }
    r
}

/// How one character appears in an escaped path: a backslash doubles, a
/// newline becomes a backslash and an `n`, all else stands as itself.
pub open spec fn esc_char(c: char) -> Seq<char> {
    if c == '\\' {
        seq!['\\', '\\']
    } else if c == '\n' {
        seq!['\\', 'n']
    } else {
        seq![c]
    }
}

/// The escaped form of a path.
pub open spec fn esc_chars(s: Seq<char>) -> Seq<char>
    decreases s.len(),
{
    if s.len() == 0 {
        Seq::empty()
    } else {
        esc_chars(s.drop_last()) + esc_char(s.last())
    }
}

/// A path's report line: four spaces and the path itself, unless the
/// path holds a newline, in which case a sentinel opens the line and the
/// escaped path stands between the marks.
pub open spec fn report_path_line(p: Seq<char>) -> Seq<char> {
    if p.contains('\n') {
        seq![' ', ' ', ' ', ' ', '\\', '"'] + esc_chars(p) + seq!['"']
    } else {
        seq![' ', ' ', ' ', ' '] + p
    }
}

/// Renders one path line.
pub fn render_path_line(p: &String) -> (r: String)
    ensures
        r@ == report_path_line(p@),
{
    let s = p.as_str();
    let n = s.unicode_len();
    let mut has_newline = false;
    let mut i: usize = 0;
    while i < n
        invariant
            i <= n,
            n == s@.len(),
            has_newline == exists|j: int| 0 <= j < i && s@[j] == '\n',
        decreases n - i,
    {
        if s.get_char(i) == '\n' {
            has_newline = true;
            proof {
                assert(s@[i as int] == '\n');
            }
        }
        i += 1;
    }
    proof {
        assert(has_newline == p@.contains('\n'));
    }
    let mut r = String::new();
    push_char(&mut r, ' ');
    push_char(&mut r, ' ');
    push_char(&mut r, ' ');
    push_char(&mut r, ' ');
    if !has_newline {
        let mut j: usize = 0;
        proof {
            assert(r@ =~= seq![' ', ' ', ' ', ' '] + p@.take(0));
        }
        while j < n
            invariant
                j <= n,
                n == s@.len(),
                s@ == p@,
                r@ == seq![' ', ' ', ' ', ' '] + p@.take(j as int),
            decreases n - j,
        {
            let ghost r_prev = r@;
            let c = s.get_char(j);
            push_char(&mut r, c);
            proof {
                assert(p@.take(j + 1) =~= p@.take(j as int).push(p@[j as int]));
                assert(r@ =~= seq![' ', ' ', ' ', ' '] + p@.take(j + 1));
            }
            j += 1;
        }
        proof {
            assert(p@.take(n as int) =~= p@);
        }
        r
    } else {
        push_char(&mut r, '\\');
        push_char(&mut r, '"');
        let mut j: usize = 0;
        proof {
            assert(esc_chars(p@.take(0)) =~= Seq::<char>::empty());
            assert(r@ =~= seq![' ', ' ', ' ', ' ', '\\', '"'] + esc_chars(p@.take(0)));
        }
        while j < n
            invariant
                j <= n,
                n == s@.len(),
                s@ == p@,
                r@ == seq![' ', ' ', ' ', ' ', '\\', '"'] + esc_chars(p@.take(j as int)),
            decreases n - j,
        {
            let c = s.get_char(j);
            proof {
                assert(p@.take(j + 1).drop_last() =~= p@.take(j as int));
                assert(p@.take(j + 1).last() == p@[j as int]);
            }
            if c == '\\' {
                push_char(&mut r, '\\');
                push_char(&mut r, '\\');
            } else if c == '\n' {
                push_char(&mut r, '\\');
                push_char(&mut r, 'n');
            } else {
                push_char(&mut r, c);
            }
            proof {
                assert(esc_chars(p@.take(j + 1)) =~= esc_chars(p@.take(j as int)) + esc_char(
                    p@[j as int],
                ));
                assert(r@ =~= seq![' ', ' ', ' ', ' ', '\\', '"'] + esc_chars(p@.take(j + 1)));
            }
            j += 1;
        }
        push_char(&mut r, '"');
        proof {
            assert(p@.take(n as int) =~= p@);
            assert(r@ =~= report_path_line(p@));
        }
        r
    }
}

/// The path lines of one entry, each closed by a newline.
pub open spec fn paths_lines(ps: Seq<Seq<char>>) -> Seq<char>
    decreases ps.len(),
{
    if ps.len() == 0 {
        Seq::empty()
    } else {
        paths_lines(ps.drop_last()) + report_path_line(ps.last()) + seq!['\n']
    }
}

/// One entry's block: its device and inode, then its path lines.
pub open spec fn entry_block(e: EntryView) -> Seq<char> {
    seq![' ', ' '] + dec_digits(e.dev as int) + seq![' '] + dec_digits(e.inode as int)
        + seq!['\n'] + paths_lines(e.paths)
}

/// The blocks of a group's entries.
pub open spec fn entry_blocks(g: Seq<EntryView>) -> Seq<char>
    decreases g.len(),
{
    if g.len() == 0 {
        Seq::empty()
    } else {
        entry_blocks(g.drop_last()) + entry_block(g.last())
    }
}

/// One group's section: the size header, then every member's block.
pub open spec fn group_block(g: Seq<EntryView>) -> Seq<char> {
    if g.len() == 0 {
        Seq::empty()
    } else {
        "Identical Files. Size: "@ + dec_digits(g[0].size as int) + seq!['\n'] + entry_blocks(g)
    }
}

/// The whole report.
pub open spec fn report_chars(gs: Seq<Seq<EntryView>>) -> Seq<char>
    decreases gs.len(),
{
    if gs.len() == 0 {
        Seq::empty()
    } else {
        report_chars(gs.drop_last()) + group_block(gs.last())
    }
}

/// Renders the duplicate-groups report.
pub fn render_report(groups: &Vec<Vec<FSEntry>>) -> (r: String)
    ensures
        r@ == report_chars(group_views(groups@)),
{
    let mut r = String::new();
    let ng = groups.len();
    let mut g: usize = 0;
    proof {
        assert(group_views(groups@).take(0) =~= Seq::<Seq<EntryView>>::empty());
        assert(r@ =~= report_chars(group_views(groups@).take(0)));
    }
    while g < ng
        invariant
            g <= ng,
            ng == groups@.len(),
            r@ == report_chars(group_views(groups@).take(g as int)),
        decreases ng - g,
    {
        let ghost gv = group_views(groups@);
        let ghost r_start = r@;
        let group = &groups[g];
        proof {
            assert(gv[g as int] == crate::fs_entry::entry_views(groups@[g as int]@));
        }
        let ne = group.len();
        if ne > 0 {
            r.append("Identical Files. Size: ");
            let size_str = u64_to_string(group[0].size);
            r.append(size_str.as_str());
            push_char(&mut r, '\n');
            proof {
                assert(group@[0]@ == gv[g as int][0]);
                assert(r@ =~= r_start + "Identical Files. Size: "@ + dec_digits(
                    gv[g as int][0].size as int,
                ) + seq!['\n']);
                assert(entry_blocks(gv[g as int].take(0)) =~= Seq::<char>::empty());
            }
            let mut e: usize = 0;
            while e < ne
                invariant
                    e <= ne,
                    ne == group@.len(),
                    group == &groups@[g as int],
                    g < ng,
                    ng == groups@.len(),
                    gv == group_views(groups@),
                    gv[g as int] == crate::fs_entry::entry_views(group@),
                    ne == gv[g as int].len(),
                    ne > 0,
                    r@ == r_start + "Identical Files. Size: "@ + dec_digits(
                        gv[g as int][0].size as int,
                    ) + seq!['\n'] + entry_blocks(gv[g as int].take(e as int)),
                decreases ne - e,
            {
                let ghost r_entry = r@;
                let ghost ev = gv[g as int][e as int];
                proof {
                    assert(group@[e as int]@ == ev);
                }
                push_char(&mut r, ' ');
                push_char(&mut r, ' ');
                let dev_str = u64_to_string(group[e].dev);
                r.append(dev_str.as_str());
                push_char(&mut r, ' ');
                let ino_str = u64_to_string(group[e].inode);
                r.append(ino_str.as_str());
                push_char(&mut r, '\n');
                proof {
                    assert(r@ =~= r_entry + seq![' ', ' '] + dec_digits(ev.dev as int) + seq![' ']
                        + dec_digits(ev.inode as int) + seq!['\n']);
                    assert(paths_lines(ev.paths.take(0)) =~= Seq::<char>::empty());
                }
                let ghost r_paths_base = r@;
                let np = group[e].paths.len();
                proof {
                    assert(np == ev.paths.len());
                }
                let mut pidx: usize = 0;
                while pidx < np
                    invariant
                        pidx <= np,
                        e < ne,
                        ne == group@.len(),
                        group == &groups@[g as int],
                        gv == group_views(groups@),
                        gv[g as int] == crate::fs_entry::entry_views(group@),
                        ev == gv[g as int][e as int],
                        np == group@[e as int].paths@.len(),
                        np == ev.paths.len(),
                        r@ == r_paths_base + paths_lines(ev.paths.take(pidx as int)),
                    decreases np - pidx,
                {
                    let ghost r_prev = r@;
                    let line = render_path_line(&group[e].paths[pidx]);
                    proof {
                        assert(group@[e as int].paths@[pidx as int]@ == ev.paths[pidx as int]);
                    }
                    r.append(line.as_str());
                    push_char(&mut r, '\n');
                    proof {
                        assert(ev.paths.take(pidx + 1).drop_last() =~= ev.paths.take(pidx as int));
                        assert(ev.paths.take(pidx + 1).last() == ev.paths[pidx as int]);
                        assert(r@ =~= r_paths_base + paths_lines(ev.paths.take(pidx + 1)));
                    }
                    pidx += 1;
                }
                proof {
                    assert(ev.paths.take(np as int) =~= ev.paths);
                    assert(gv[g as int].take(e + 1).drop_last() =~= gv[g as int].take(e as int));
                    assert(gv[g as int].take(e + 1).last() == ev);
                    assert(r@ =~= r_start + "Identical Files. Size: "@ + dec_digits(
                        gv[g as int][0].size as int,
                    ) + seq!['\n'] + entry_blocks(gv[g as int].take(e + 1)));
                }
                e += 1;
            }
            proof {
                assert(gv[g as int].take(ne as int) =~= gv[g as int]);
                assert(gv.take(g + 1).drop_last() =~= gv.take(g as int));
                assert(gv.take(g + 1).last() == gv[g as int]);
                assert(r@ =~= report_chars(gv.take(g + 1)));
            }
        } else {
            proof {
                assert(gv[g as int].len() == 0);
                assert(gv.take(g + 1).drop_last() =~= gv.take(g as int));
                assert(gv.take(g + 1).last() == gv[g as int]);
                assert(group_block(gv[g as int]) =~= Seq::<char>::empty());
                assert(r@ =~= report_chars(gv.take(g + 1)));
            }
        }
        g += 1;
    }
    proof {
        assert(group_views(groups@).take(ng as int) =~= group_views(groups@));
    }
    r
}

} // verus!
