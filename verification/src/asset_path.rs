//! Names of the sub-assets of a glTF file: `{path}#Mesh{m}/Primitive{p}` and
//! `{path}#Material{m}`, with indices written in decimal.
use vstd::prelude::*;

verus! {

/// The character of a decimal digit.
pub open spec fn digit_char(d: nat) -> char {
    if d == 0 { '0' }
    else if d == 1 { '1' }
    else if d == 2 { '2' }
    else if d == 3 { '3' }
    else if d == 4 { '4' }
    else if d == 5 { '5' }
    else if d == 6 { '6' }
    else if d == 7 { '7' }
    else if d == 8 { '8' }
    else { '9' }
}

/// The decimal representation of `n`, most significant digit first, without
/// leading zeros (`0` is written `"0"`).
pub open spec fn decimal(n: nat) -> Seq<char>
    decreases n,
{
    if n < 10 {
        seq![digit_char(n)]
    } else {
        decimal(n / 10).push(digit_char(n % 10))
    }
}

fn digit_str(d: usize) -> (r: &'static str)
    requires
        d < 10,
    ensures
        r@ == seq![digit_char(d as nat)],
{
    if d == 0 {
        proof { reveal_strlit("0"); }
        "0"
    } else if d == 1 {
        proof { reveal_strlit("1"); }
        "1"
    } else if d == 2 {
        proof { reveal_strlit("2"); }
        "2"
    } else if d == 3 {
        proof { reveal_strlit("3"); }
        "3"
    } else if d == 4 {
        proof { reveal_strlit("4"); }
        "4"
    } else if d == 5 {
        proof { reveal_strlit("5"); }
        "5"
    } else if d == 6 {
        proof { reveal_strlit("6"); }
        "6"
    } else if d == 7 {
        proof { reveal_strlit("7"); }
        "7"
    } else if d == 8 {
        proof { reveal_strlit("8"); }
        "8"
    } else {
        proof { reveal_strlit("9"); }
        "9"
    }
}

/// Appends the decimal representation of `n` to `s`.
pub fn append_decimal(s: &mut String, n: usize)
    ensures
        final(s)@ == old(s)@ + decimal(n as nat),
    decreases n,
{
    if n >= 10 {
        append_decimal(s, n / 10);
    }
    s.append(digit_str(n % 10));
    proof {
        if n >= 10 {
            assert(decimal(n as nat) == decimal((n / 10) as nat).push(digit_char((n % 10) as nat)));
        }
    }
}

/// `{base}#Mesh{mesh}/Primitive{primitive}`: the label of one primitive of
/// a mesh inside a glTF file.
pub open spec fn mesh_asset_path_spec(base: Seq<char>, mesh: nat, primitive: nat) -> Seq<char> {
    base + "#Mesh"@ + decimal(mesh) + "/Primitive"@ + decimal(primitive)
}

/// `{base}#Material{material}`: the label of one material inside a glTF file.
pub open spec fn material_asset_path_spec(base: Seq<char>, material: nat) -> Seq<char> {
    base + "#Material"@ + decimal(material)
}

/// The asset path of primitive `primitive` of mesh `mesh` of the glTF file at `base`.
pub fn mesh_asset_path(base: &str, mesh: usize, primitive: usize) -> (r: String)
    ensures
        r@ == mesh_asset_path_spec(base@, mesh as nat, primitive as nat),
{
    let mut s = base.to_owned();
    s.append("#Mesh");
    append_decimal(&mut s, mesh);
    s.append("/Primitive");
    append_decimal(&mut s, primitive);
    s
}

/// The asset path of material `material` of the glTF file at `base`.
pub fn material_asset_path(base: &str, material: usize) -> (r: String)
    ensures
        r@ == material_asset_path_spec(base@, material as nat),
{
    let mut s = base.to_owned();
    s.append("#Material");
    append_decimal(&mut s, material);
    s
}

/// `c` is one of the characters `0` to `9`.
pub open spec fn is_digit(c: char) -> bool {
    '0' <= c && c <= '9'
}

/// The decimal representation is made of digits only; a single digit below
/// ten, at least two digits from ten on.
pub proof fn lemma_decimal_shape(n: nat)
    ensures
        forall|i: int| 0 <= i < decimal(n).len() ==> is_digit(#[trigger] decimal(n)[i]),
        n < 10 ==> decimal(n).len() == 1,
        n >= 10 ==> decimal(n).len() >= 2,
    decreases n,
{
    if n >= 10 {
        lemma_decimal_shape(n / 10);
        let d = decimal(n / 10);
        assert forall|i: int| 0 <= i < decimal(n).len() implies is_digit(#[trigger] decimal(n)[i]) by {
            if i < d.len() {
                assert(decimal(n)[i] == d[i]);
            }
        }
    }
}

/// Different numbers have different decimal representations.
pub proof fn lemma_decimal_injective(a: nat, b: nat)
    requires
        decimal(a) == decimal(b),
    ensures
        a == b,
    decreases a,
{
    lemma_decimal_shape(a);
    lemma_decimal_shape(b);
    if a >= 10 && b >= 10 {
        let da = decimal(a / 10);
        let db = decimal(b / 10);
        assert(decimal(a).drop_last() =~= da);
        assert(decimal(b).drop_last() =~= db);
        lemma_decimal_injective(a / 10, b / 10);
        assert(decimal(a).last() == digit_char(a % 10));
        assert(decimal(b).last() == digit_char(b % 10));
    } else if a < 10 && b < 10 {
        assert(decimal(a)[0] == digit_char(a));
        assert(decimal(b)[0] == digit_char(b));
    }
}

/// The part after `prefix` of `prefix + rest` is `rest`.
proof fn lemma_skip_prefix(prefix: Seq<char>, x: Seq<char>, y: Seq<char>)
    requires
        prefix + x == prefix + y,
    ensures
        x == y,
{
    assert(x =~= (prefix + x).skip(prefix.len() as int));
    assert(y =~= (prefix + y).skip(prefix.len() as int));
}

/// Two primitives of the same file have the same asset path only when
/// they are the same primitive of the same mesh.
pub proof fn lemma_mesh_asset_path_injective(base: Seq<char>, m1: nat, p1: nat, m2: nat, p2: nat)
    requires
        mesh_asset_path_spec(base, m1, p1) == mesh_asset_path_spec(base, m2, p2),
    ensures
        m1 == m2,
        p1 == p2,
{
    reveal_strlit("/Primitive");
    let head = base + "#Mesh"@;
    let sep = "/Primitive"@;
    let d1 = decimal(m1);
    let d2 = decimal(m2);
    let e1 = decimal(p1);
    let e2 = decimal(p2);
    let t1 = d1 + sep + e1;
    let t2 = d2 + sep + e2;
    assert(mesh_asset_path_spec(base, m1, p1) =~= head + t1);
    assert(mesh_asset_path_spec(base, m2, p2) =~= head + t2);
    lemma_skip_prefix(head, t1, t2);
    lemma_decimal_shape(m1);
    lemma_decimal_shape(m2);
    if d1.len() < d2.len() {
        assert(t1[d1.len() as int] == sep[0]);
        assert(t2[d1.len() as int] == d2[d1.len() as int]);
        assert(false);
    }
    if d2.len() < d1.len() {
        assert(t2[d2.len() as int] == sep[0]);
        assert(t1[d2.len() as int] == d1[d2.len() as int]);
        assert(false);
    }
    assert(d1 =~= t1.take(d1.len() as int));
    assert(d2 =~= t2.take(d2.len() as int));
    lemma_decimal_injective(m1, m2);
    assert(t1 =~= (d1 + sep) + e1);
    assert(t2 =~= (d1 + sep) + e2);
    lemma_skip_prefix(d1 + sep, e1, e2);
    lemma_decimal_injective(p1, p2);
}

/// Two materials of the same file have the same asset path only when they
/// are the same material.
pub proof fn lemma_material_asset_path_injective(base: Seq<char>, m1: nat, m2: nat)
    requires
        material_asset_path_spec(base, m1) == material_asset_path_spec(base, m2),
    ensures
        m1 == m2,
{
    let head = base + "#Material"@;
    assert(material_asset_path_spec(base, m1) =~= head + decimal(m1));
    assert(material_asset_path_spec(base, m2) =~= head + decimal(m2));
    lemma_skip_prefix(head, decimal(m1), decimal(m2));
    lemma_decimal_injective(m1, m2);
}

} // verus!
