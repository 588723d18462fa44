//! The files of a new project.

use vstd::prelude::*;

verus! {

pub const SCENE_TEMPLATE: &'static str = "<scene canvas=\"1080x1920\" fps=\"30\" clear=\"#0e0e12\">
  <script track=\"voice\" voice=\"narrator\">
    <line id=\"hook\">Your opening line goes here.</line>
    <line id=\"payoff\">The payoff lands here.</line>
  </script>

  <track id=\"voice\" kind=\"audio\">
    <sound src=\"assets/narration.wav\" during=\"hook..payoff\"/>
  </track>

  <track kind=\"visual\" anchor=\"voice\">
    <image src=\"assets/backdrop.png\" during=\"hook..payoff\"/>
    <board during=\"payoff\" at=\"center\" anim=\"rise\">
      <text bind=\"payoff.text\"/>
    </board>
    <captions style=\"karaoke\" anchor=\"voice.words\"/>
  </track>

  <track kind=\"audio\">
    <music src=\"assets/bed.mp3\" gain=\"-14dB\" duck=\"voice\" during=\"hook..payoff\"/>
  </track>

  <render target=\"out/final.mp4\"/>
</scene>
";

pub const PROJECT_TOML: &'static str = "[project]
name = \"scene\"

[scene]
source = \"main.scene\"

[render]
target = \"out/final.mp4\"

# Capabilities — external services the scene may call. The engine sends
# the connector a JSON request; the connector writes the asset. Secrets
# resolve via env or the OS keychain and arrive as SCENE_CAP_AUTH.
#
# [capabilities.tts]
# command = [\"sh\", \"connectors/elevenlabs-tts.sh\"]
# auth = { env = \"ELEVENLABS_API_KEY\" }
#
# [capabilities.image]
# command = [\"sh\", \"connectors/openai-image.sh\"]
# auth = { env = \"OPENAI_API_KEY\" }
";

pub const PROJECT_GITIGNORE: &'static str = "cache/\nout/\n";

} // verus!
