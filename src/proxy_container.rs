//! The proxy container's settings, and the values the runtime calls are built
//! from: the image reference, the published port keys and the bind mounts.
use vstd::prelude::*;
use crate::paths::{join_path, joined, Platform};
use crate::port_mapping::decimal;
use crate::text::{append_chars, chars_of, slice_chars, split, split_chars, string_of, views};

verus! {

/// How the proxy container is named, labelled, built and connected.
pub struct ProxySettings {
    pub label: String,
    pub container_name: String,
    pub image: String,
    pub network_name: String,
    /// Bind mounts in the `source:target[:ro]` form.
    pub volume_mounts: Vec<String>,
    /// The directory that relative mount sources are taken from.
    pub base_dir: String,
    pub platform: Platform,
}

/// One bind mount of the proxy container.
#[derive(Debug)]
pub struct MountSpec {
    pub source: String,
    pub target: String,
    pub read_only: bool,
}

/// A mount text without both a source and a target.
#[derive(Debug)]
pub struct MountError {
    pub mount: String,
}

/// The decimal digits of `n`.
pub fn decimal_chars(n: u16) -> (r: Vec<char>)
    ensures
        r@ == decimal(n as nat),
    decreases n,
{
    let digit = ((n % 10) as u8 + 48u8) as char;
    assert(digit as nat == (n as nat % 10) + '0' as nat);
    if n < 10 {
        let mut r: Vec<char> = Vec::new();
        r.push(digit);
        assert(r@ =~= decimal(n as nat));
        r
    } else {
        let mut r = decimal_chars(n / 10);
        r.push(digit);
        assert(r@ =~= decimal(n as nat));
        r
    }
}

/// The key under which the runtime publishes `port`: its number and `/tcp`.
pub fn port_key(port: u16) -> (r: String)
    ensures
        r@ == decimal(port as nat) + "/tcp"@,
{
    let mut out = decimal_chars(port);
    append_chars(&mut out, &chars_of("/tcp"));
    string_of(&out)
}

/// Whether a managed container in runtime state `state` is stopped before it is removed: only
/// a running one is.
pub fn should_stop(state: &Option<String>) -> (r: bool)
    ensures
        r == (match state {
            Some(s) => s@ == "running"@,
            None => false,
        }),
{
    match state {
        Some(s) => crate::text::same_chars(&chars_of(s.as_str()), &chars_of("running")),
        None => false,
    }
}

/// Whether the mount source `s` is an absolute path.
pub open spec fn is_absolute(p: Platform, s: Seq<char>) -> bool {
    match p {
        Platform::Unix => s.len() > 0 && s[0] == '/',
        Platform::Windows => s.len() > 1 && s[0] == '\\' && s[1] == '\\',
    }
}

/// The image name and tag of `image`: split at its first `:`, the tag `latest` when there is
/// none.
pub open spec fn image_parts(image: Seq<char>) -> (Seq<char>, Seq<char>) {
    if image.contains(':') {
        let i = choose|i: int| 0 <= i < image.len() && image[i] == ':' && forall|k: int|
            0 <= k < i ==> image[k] != ':';
        (image.subrange(0, i), image.subrange(i + 1, image.len() as int))
    } else {
        (image, "latest"@)
    }
}

/// The mount that `text` describes, relative sources taken from `base`.
pub open spec fn mount_of(p: Platform, base: Seq<char>, text: Seq<char>) -> Option<(Seq<char>, Seq<char>, bool)> {
    let parts = split(text, ':');
    if parts.len() < 2 {
        None
    } else {
        Some(
            (
                if is_absolute(p, parts[0]) {
                    parts[0]
                } else {
                    joined(p, base, parts[0])
                },
                parts[1],
                parts.len() > 2 && parts[2] == "ro"@,
            ),
        )
    }
}

impl ProxySettings {
    /// The settings of the managed proxy: its configuration, certificates and logs mounted
    /// from the given directories.
    pub fn new(
        platform: Platform,
        data_dir: &str,
        certs_dir: &str,
        nginx_log_dir: &str,
        base_dir: String,
    ) -> (r: Self)
        ensures
            r.platform == platform,
            r.base_dir@ == base_dir@,
            r.image@ == "nginx:latest"@,
            r.label@ == "kz.byte0.autolocalhost.managed-nginx-container"@,
            r.container_name@ == "autolocalhost-nginx-container"@,
            r.network_name@ == "autolocalhost-external-network"@,
            r.volume_mounts@.map_values(|m: String| m@) == seq![
                joined(platform, data_dir@, "nginx.conf"@) + ":/etc/nginx/nginx.conf:ro"@,
                certs_dir@ + ":/etc/ssl/certs:ro"@,
                nginx_log_dir@ + ":/var/log/nginx"@,
            ],
    {
        let config = join_path(platform, data_dir, "nginx.conf");
        let mut m1 = chars_of(config.as_str());
        append_chars(&mut m1, &chars_of(":/etc/nginx/nginx.conf:ro"));
        let mut m2 = chars_of(certs_dir);
        append_chars(&mut m2, &chars_of(":/etc/ssl/certs:ro"));
        let mut m3 = chars_of(nginx_log_dir);
        append_chars(&mut m3, &chars_of(":/var/log/nginx"));
        let mut mounts: Vec<String> = Vec::new();
        mounts.push(string_of(&m1));
        mounts.push(string_of(&m2));
        mounts.push(string_of(&m3));
        let r = ProxySettings {
            label: "kz.byte0.autolocalhost.managed-nginx-container".to_owned(),
            container_name: "autolocalhost-nginx-container".to_owned(),
            image: "nginx:latest".to_owned(),
            network_name: "autolocalhost-external-network".to_owned(),
            volume_mounts: mounts,
            base_dir,
            platform,
        };
        assert(r.volume_mounts@.map_values(|m: String| m@) =~= seq![
            joined(platform, data_dir@, "nginx.conf"@) + ":/etc/nginx/nginx.conf:ro"@,
            certs_dir@ + ":/etc/ssl/certs:ro"@,
            nginx_log_dir@ + ":/var/log/nginx"@,
        ]);
        r
    }

    /// The image name and tag to pull.
    pub fn image_reference(&self) -> (r: (String, String))
        ensures
            (r.0@, r.1@) == image_parts(self.image@),
    {
        let v = chars_of(self.image.as_str());
        let mut i: usize = 0;
        while i < v.len() && v[i] != ':'
            invariant
                i <= v.len(),
                forall|k: int| 0 <= k < i ==> v@[k] != ':',
            decreases v.len() - i,
        {
            i = i + 1;
        }
        if i == v.len() {
            assert(!v@.contains(':'));
            (self.image.clone(), "latest".to_owned())
        } else {
            let ghost j = choose|j: int| 0 <= j < v@.len() && v@[j] == ':' && forall|k: int|
                0 <= k < j ==> v@[k] != ':';
            assert(j == i) by {
                if j < i {
                    assert(v@[j] != ':');
                } else if j > i {
                    assert(v@[i as int] == ':');
                }
            }
            let name = slice_chars(&v, 0, i);
            let tag = slice_chars(&v, i + 1, v.len());
            (string_of(&name), string_of(&tag))
        }
    }

    /// The bind mounts, relative sources taken from the base directory; fails at the first
    /// mount text without both a source and a target.
    pub fn prepare_mounts(&self) -> (r: Result<Vec<MountSpec>, MountError>)
        ensures
            match r {
                Ok(ms) => ms@.len() == self.volume_mounts@.len() && forall|k: int|
                    0 <= k < ms@.len() ==> mount_of(self.platform, self.base_dir@, self.volume_mounts@[k]@)
                        == Some((ms@[k].source@, ms@[k].target@, ms@[k].read_only)),
                Err(e) => exists|k: int|
                    0 <= k < self.volume_mounts@.len() && mount_of(
                        self.platform,
                        self.base_dir@,
                        #[trigger] self.volume_mounts@[k]@,
                    ) is None && e.mount@ == self.volume_mounts@[k]@,
            },
    {
        let mut out: Vec<MountSpec> = Vec::new();
        let mut i: usize = 0;
        let ro = chars_of("ro");
        while i < self.volume_mounts.len()
            invariant
                i <= self.volume_mounts.len(),
                ro@ == "ro"@,
                out@.len() == i,
                forall|k: int|
                    0 <= k < i ==> mount_of(self.platform, self.base_dir@, self.volume_mounts@[k]@)
                        == Some((out@[k].source@, out@[k].target@, out@[k].read_only)),
            decreases self.volume_mounts.len() - i,
        {
            let text = &self.volume_mounts[i];
            let parts = split_chars(&chars_of(text.as_str()), ':');
            let ghost pv = views(parts@);
            if parts.len() < 2 {
                return Err(MountError { mount: text.clone() });
            }
            assert(pv[0] == parts@[0]@ && pv[1] == parts@[1]@);
            let first = &parts[0];
            let absolute = match self.platform {
                Platform::Unix => first.len() > 0 && first[0] == '/',
                Platform::Windows => first.len() > 1 && first[0] == '\\' && first[1] == '\\',
            };
            let source = if absolute {
                string_of(first)
            } else {
                join_path(self.platform, self.base_dir.as_str(), string_of(first).as_str())
            };
            let read_only = if parts.len() > 2 {
                assert(pv[2] == parts@[2]@);
                crate::text::same_chars(&parts[2], &ro)
            } else {
                false
            };
            let spec = MountSpec { source, target: string_of(&parts[1]), read_only };
            out.push(spec);
            i = i + 1;
        }
        Ok(out)
    }
}

} // verus!
